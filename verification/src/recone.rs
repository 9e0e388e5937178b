//! Making all overlays anew after the files on disk have changed.
use crate::file_ids::{SharedFileIds, MAX_ANALYZED_FILE_ID};
use crate::ordered::{lemma_sorted_exists, lemma_sorted_keys, listed, sorted_keys, OrderedMap};
use crate::overlay::{needs_overlay, ActiveSessionOverlay, OverlayView};
use crate::overlay_build::numbers_needed;
use crate::overlay_files::{
    open_views, prepare_session_overlay_files, prepared, prepared_views, OpenFile, OpenFileView,
    PreparedOverlayFile,
};
use crate::privacy::{next_after, room_for};
use crate::shared::Replica;
use crate::sync::{is_new_overlay, overlay_or_empty, synced, wanted, SharedOverlaySync};
use crate::view::copy_indexes;
use crate::world::{SharedWorld, WorldView};
use vstd::prelude::*;

verus! {

/// For each canonical path, which workspaces' configurations cover it, and whether as a library.
pub struct Classification {
    pub by_path: OrderedMap<String, Vec<Option<bool>>>,
}

impl View for Classification {
    type V = Map<Seq<char>, Seq<Option<bool>>>;

    open spec fn view(&self) -> Map<Seq<char>, Seq<Option<bool>>> {
        self.by_path@.map_values(|v: Vec<Option<bool>>| v@)
    }
}

/// No file number is left.
#[derive(Clone, Copy, Debug, PartialEq, Eq, Structural)]
pub struct OutOfFileNumbers;

/// The files that a session has open, as far as its overlay tells, up to the `n`th path.
pub open spec fn reopened_to(overlay: OverlayView, classes: Map<Seq<char>, Seq<Option<bool>>>, n: int) -> Seq<OpenFileView>
    decreases n,
{
    if n <= 0 {
        Seq::empty()
    } else {
        let key = sorted_keys::<String>(overlay.open_files.dom())[n - 1];
        let file = overlay.files[key];
        reopened_to(overlay, classes, n - 1).push(
            OpenFileView {
                path: file.display_path,
                text: overlay.open_files[key],
                line_endings: file.line_endings,
                classified: classes[file.display_path.key],
            },
        )
    }
}

/// The files that a session has open, as far as its overlay tells.
pub open spec fn reopened(overlay: OverlayView, classes: Map<Seq<char>, Seq<Option<bool>>>) -> Seq<OpenFileView> {
    reopened_to(overlay, classes, sorted_keys::<String>(overlay.open_files.dom()).len() as int)
}

/// The paths of all open files are classified, for as many workspaces as there are.
pub open spec fn all_classified(w: WorldView, classes: Map<Seq<char>, Seq<Option<bool>>>) -> bool {
    forall|s: u64, k: Seq<char>|
        w.overlays.contains_key(s) && #[trigger] w.overlays[s].open_files.contains_key(k) ==> {
            let path = w.overlays[s].files[k].display_path.key;
            classes.contains_key(path) && classes[path].len() == w.base.workspaces.len()
        }
}

/// The world, and the next file number, once the overlays of the first `n` sessions are made anew,
/// one after another. What the sessions have open is what it was at the start.
pub open spec fn reconed_to(w: WorldView, next: u32, classes: Map<Seq<char>, Seq<Option<bool>>>, n: int) -> (WorldView, u32)
    decreases n,
{
    if n <= 0 {
        (w, next)
    } else {
        let before = reconed_to(w, next, classes, n - 1);
        let session = sorted_keys::<u64>(w.overlays.dom())[n - 1];
        let indexes = w.overlays[session].workspaces;
        let files = prepared(before.0.base, indexes, reopened(w.overlays[session], classes));
        (
            synced(before.0, session, indexes, files, true, before.1),
            next_after(before.0, session, indexes, files, true, before.1) as u32,
        )
    }
}

/// There are numbers for the files of the `n`th session's new overlay.
pub open spec fn recone_fits(w: WorldView, next: u32, classes: Map<Seq<char>, Seq<Option<bool>>>, n: int) -> bool {
    let before = reconed_to(w, next, classes, n);
    let session = sorted_keys::<u64>(w.overlays.dom())[n];
    let indexes = w.overlays[session].workspaces;
    let files = prepared(before.0.base, indexes, reopened(w.overlays[session], classes));
    room_for(before.0, session, indexes, files, true, before.1)
}

/// What is told of the `n`th session's new overlay.
pub open spec fn is_recone(sync: SharedOverlaySync, w: WorldView, next: u32, classes: Map<Seq<char>, Seq<Option<bool>>>, n: int) -> bool {
    let before = reconed_to(w, next, classes, n);
    let session = sorted_keys::<u64>(w.overlays.dom())[n];
    let indexes = w.overlays[session].workspaces;
    let files = prepared(before.0.base, indexes, reopened(w.overlays[session], classes));
    is_new_overlay(sync, before.0, session, indexes, files, before.1)
}

/// What is told of the new overlays, by ascending session.
pub open spec fn are_recones(list: Seq<SharedOverlaySync>, w: WorldView, next: u32, classes: Map<Seq<char>, Seq<Option<bool>>>) -> bool {
    &&& list.len() == sorted_keys::<u64>(w.overlays.dom()).len()
    &&& forall|n: int| 0 <= n < list.len() ==> is_recone(#[trigger] list[n], w, next, classes, n)
}

/// The numbers run out at some session: those before it have their new overlays.
pub open spec fn recones_stopped(w: WorldView, next: u32, classes: Map<Seq<char>, Seq<Option<bool>>>, after: (WorldView, u32)) -> bool {
    exists|n: int|
        0 <= n < sorted_keys::<u64>(w.overlays.dom()).len() && !#[trigger] recone_fits(w, next, classes, n) && after == reconed_to(
            w,
            next,
            classes,
            n,
        )
}

pub open spec fn all_recones_fit(w: WorldView, next: u32, classes: Map<Seq<char>, Seq<Option<bool>>>) -> bool {
    forall|n: int| 0 <= n < sorted_keys::<u64>(w.overlays.dom()).len() ==> #[trigger] recone_fits(w, next, classes, n)
}

/// The world once all overlays are made anew.
pub open spec fn reconed(w: WorldView, next: u32, classes: Map<Seq<char>, Seq<Option<bool>>>) -> (WorldView, u32) {
    reconed_to(w, next, classes, sorted_keys::<u64>(w.overlays.dom()).len() as int)
}

fn copy_classes(list: &Vec<Option<bool>>) -> (r: Vec<Option<bool>>)
    ensures
        r@ == list@,
{
    let mut r: Vec<Option<bool>> = Vec::new();
    let mut i: usize = 0;
    while i < list.len()
        invariant
            i <= list.len(),
            r@ == list@.take(i as int),
        decreases list.len() - i,
    {
        r.push(list[i]);
        proof {
            assert(list@.take(i + 1) =~= list@.take(i as int).push(list@[i as int]));
        }
        i = i + 1;
    }
    proof {
        assert(list@.take(i as int) =~= list@);
    }
    r
}

/// The files that a session has open, as far as its overlay tells.
pub fn reopen(overlay: &ActiveSessionOverlay, classes: &Classification) -> (r: Vec<OpenFile>)
    requires
        overlay@.wf(),
        forall|k: Seq<char>| #[trigger] overlay@.open_files.contains_key(k) ==> classes@.contains_key(overlay@.files[k].display_path.key),
    ensures
        open_views(r@) == reopened(overlay@, classes@),
{
    let n = overlay.open_files.len();
    let mut r: Vec<OpenFile> = Vec::new();
    let mut i: usize = 0;
    let ghost o = overlay@;
    proof {
        lemma_sorted_keys(overlay.open_files);
        assert(o.open_files.dom() =~= overlay.open_files@.dom());
        assert(open_views(r@) =~= Seq::empty());
    }
    while i < n
        invariant
            i <= n,
            n == overlay.open_files.keys().len(),
            listed(overlay.open_files),
            o == overlay@,
            o.wf(),
            overlay.open_files.keys() == sorted_keys::<String>(o.open_files.dom()),
            forall|k: Seq<char>| #[trigger] o.open_files.contains_key(k) ==> classes@.contains_key(o.files[k].display_path.key),
            open_views(r@) == reopened_to(o, classes@, i as int),
        decreases n - i,
    {
        let key = overlay.open_files.key_at(i);
        let text = overlay.open_files.value_at(i);
        proof {
            assert(overlay.open_files@.contains_key(overlay.open_files.keys()[i as int]));
            assert(o.open_files.contains_key(key@) && o.open_files[key@] == text@);
            assert(o.files.contains_key(key@));
            assert(overlay.files_by_path@.contains_key(key@));
        }
        match overlay.files_by_path.get(key) {
            Some(file) => {
                proof {
                    assert(o.files[key@] == file@);
                    assert(classes@.contains_key(file.display_path@.key));
                    assert(classes.by_path@.contains_key(file.display_path@.key));
                }
                match classes.by_path.get(&file.display_path.key) {
                    Some(list) => {
                        let ghost before = open_views(r@);
                        let open = OpenFile {
                            path: file.display_path.replica(),
                            text: text.clone(),
                            line_endings: file.line_endings,
                            classified: copy_classes(list),
                        };
                        let ghost view = open@;
                        r.push(open);
                        proof {
                            assert(open_views(r@) =~= before.push(view));
                        }
                    },
                    None => {},
                }
            },
            None => {},
        }
        i = i + 1;
    }
    r
}

/// What one session had open before the overlays are made anew.
struct OpenSession {
    session: u64,
    workspaces: Vec<usize>,
    files: Vec<OpenFile>,
}

spec fn is_open_session(o: OpenSession, w: WorldView, classes: Map<Seq<char>, Seq<Option<bool>>>, n: int) -> bool {
    &&& o.session == sorted_keys::<u64>(w.overlays.dom())[n]
    &&& o.workspaces@ == w.overlays[o.session].workspaces
    &&& open_views(o.files@) == reopened(w.overlays[o.session], classes)
    &&& forall|i: int| 0 <= i < o.files@.len() ==> (#[trigger] o.files@[i]).classified.len() == w.base.workspaces.len()
}

proof fn lemma_reopened_classes(overlay: OverlayView, classes: Map<Seq<char>, Seq<Option<bool>>>, count: nat, n: int)
    requires
        overlay.open_files.dom().finite(),
        0 <= n <= sorted_keys::<String>(overlay.open_files.dom()).len(),
        forall|k: Seq<char>|
            #[trigger] overlay.open_files.contains_key(k) ==> classes[overlay.files[k].display_path.key].len() == count,
    ensures
        forall|i: int|
            0 <= i < reopened_to(overlay, classes, n).len() ==> (#[trigger] reopened_to(overlay, classes, n)[i]).classified.len() == count,
    decreases n,
{
    if n > 0 {
        lemma_reopened_classes(overlay, classes, count, n - 1);
        let keys = sorted_keys::<String>(overlay.open_files.dom());
        crate::ordered::lemma_sorted_exists::<String>(overlay.open_files.dom());
        assert(keys.to_set().contains(keys[n - 1]));
        assert(overlay.open_files.contains_key(keys[n - 1]));
        let before = reopened_to(overlay, classes, n - 1);
        let r = reopened_to(overlay, classes, n);
        assert forall|i: int| 0 <= i < r.len() implies (#[trigger] r[i]).classified.len() == count by {
            if i < before.len() {
                assert(r[i] == before[i]);
            }
        }
    }
}

proof fn lemma_reconed_base(w: WorldView, next: u32, classes: Map<Seq<char>, Seq<Option<bool>>>, n: int)
    requires
        n >= 0,
    ensures
        reconed_to(w, next, classes, n).0.base.workspaces == w.base.workspaces,
    decreases n,
{
    if n > 0 {
        lemma_reconed_base(w, next, classes, n - 1);
    }
}

/// Making overlays anew does not count as a change of the inputs.
pub proof fn lemma_reconed_generations(w: WorldView, next: u32, classes: Map<Seq<char>, Seq<Option<bool>>>, n: int)
    requires
        n >= 0,
    ensures
        reconed_to(w, next, classes, n).0.input_generation == w.input_generation,
        reconed_to(w, next, classes, n).0.workspace_generation == w.workspace_generation,
    decreases n,
{
    if n > 0 {
        lemma_reconed_generations(w, next, classes, n - 1);
    }
}

impl SharedWorld {
    fn open_sessions(&self, classes: &Classification) -> (r: Vec<OpenSession>)
        requires
            forall|s: u64| #[trigger] self@.overlays.contains_key(s) ==> self@.overlays[s].wf(),
            all_classified(self@, classes@),
        ensures
            r@.len() == sorted_keys::<u64>(self@.overlays.dom()).len(),
            forall|i: int| 0 <= i < r@.len() ==> is_open_session(#[trigger] r@[i], self@, classes@, i),
    {
        let n = self.overlays.len();
        let ghost w = self@;
        let mut r: Vec<OpenSession> = Vec::new();
        let mut i: usize = 0;
        proof {
            lemma_sorted_keys(self.overlays);
            assert(w.overlays.dom() =~= self.overlays@.dom());
        }
        while i < n
            invariant
                i <= n,
                n == self.overlays.keys().len(),
                listed(self.overlays),
                w == self@,
                self.overlays.keys() == sorted_keys::<u64>(w.overlays.dom()),
                forall|s: u64| #[trigger] w.overlays.contains_key(s) ==> w.overlays[s].wf(),
                all_classified(w, classes@),
                r@.len() == i,
                forall|j: int| 0 <= j < i ==> is_open_session(#[trigger] r@[j], w, classes@, j),
            decreases n - i,
        {
            let session: u64 = *self.overlays.key_at(i);
            let overlay = self.overlays.value_at(i);
            proof {
                assert(self.overlays@.contains_key(self.overlays.keys()[i as int]));
                assert(w.overlays.contains_key(session) && w.overlays[session] == overlay@);
                assert forall|k: Seq<char>| #[trigger] overlay@.open_files.contains_key(k) implies classes@.contains_key(
                    overlay@.files[k].display_path.key,
                ) && classes@[overlay@.files[k].display_path.key].len() == w.base.workspaces.len() by {
                    assert(w.overlays[session].open_files.contains_key(k));
                }
                overlay.open_files.lemma_domain_sorted();
                assert(overlay@.open_files.dom() =~= overlay.open_files@.dom());
                lemma_reopened_classes(
                    overlay@,
                    classes@,
                    w.base.workspaces.len(),
                    sorted_keys::<String>(overlay@.open_files.dom()).len() as int,
                );
            }
            let files = reopen(overlay, classes);
            proof {
                assert forall|j: int| 0 <= j < files@.len() implies (#[trigger] files@[j]).classified.len() == w.base.workspaces.len() by {
                    assert(open_views(files@)[j] == files@[j]@);
                }
            }
            r.push(OpenSession { session, workspaces: copy_indexes(&overlay.workspaces), files });
            i = i + 1;
        }
        r
    }

    /// The file numbers that the session's new overlay takes.
    pub fn needed_numbers(&self, session: u64, workspaces: &Vec<usize>, files: &Vec<PreparedOverlayFile>) -> (r: usize)
        requires
            crate::overlay_files::known_bases(self@.base, prepared_views(files@)),
        ensures
            r == crate::sync::given(self@, session, wanted(self@.base, workspaces@, prepared_views(files@))),
    {
        let needed = needs_overlay(&self.base, workspaces, files);
        let none: Vec<PreparedOverlayFile> = Vec::new();
        let chosen = if needed {
            files
        } else {
            &none
        };
        proof {
            assert(prepared_views(none@) =~= Seq::empty());
            assert(prepared_views(chosen@) == wanted(self@.base, workspaces@, prepared_views(files@)));
        }
        match self.overlays.get(&session) {
            Some(overlay) => {
                proof {
                    assert(overlay@ == overlay_or_empty(self@, session));
                }
                numbers_needed(overlay, chosen)
            },
            None => {
                let overlay = ActiveSessionOverlay::empty();
                proof {
                    assert(overlay@ == overlay_or_empty(self@, session));
                }
                numbers_needed(&overlay, chosen)
            },
        }
    }

    /// Makes one overlay anew.
    fn recone_one(&mut self, o: &OpenSession, ids: &mut SharedFileIds) -> (r: Result<SharedOverlaySync, OutOfFileNumbers>)
        requires
            old(self)@.wf(old(ids).next),
            forall|i: int| 0 <= i < o.files@.len() ==> (#[trigger] o.files@[i]).classified.len() == old(self)@.base.workspaces.len(),
        ensures
            ({
                let w = old(self)@;
                let next = old(ids).next;
                let files = prepared(w.base, o.workspaces@, open_views(o.files@));
                &&& r is Ok <==> room_for(w, o.session, o.workspaces@, files, true, next)
                &&& r is Ok ==> final(self)@ == synced(w, o.session, o.workspaces@, files, true, next)
                &&& r is Ok ==> final(ids).next == next_after(w, o.session, o.workspaces@, files, true, next)
                &&& r matches Ok(sync) ==> is_new_overlay(sync, w, o.session, o.workspaces@, files, next)
                &&& r is Err ==> *final(self) == *old(self) && *final(ids) == *old(ids)
            }),
            final(self)@.wf(final(ids).next),
            old(ids).next <= final(ids).next,
    {
        let files = prepare_session_overlay_files(&self.base, &o.workspaces, &o.files);
        let needed = self.needed_numbers(o.session, &o.workspaces, &files);
        if needed as u128 + ids.next as u128 > MAX_ANALYZED_FILE_ID as u128 + 1 {
            return Err(OutOfFileNumbers);
        }
        Ok(self.sync_session_overlay(o.session, &o.workspaces, &files, true, ids))
    }

    /// Makes all overlays anew, by ascending session. The result lists what has changed for each of
    /// them. Where the file numbers run out, the sessions before keep their new overlays.
    pub fn recone_session_overlays(&mut self, classes: &Classification, ids: &mut SharedFileIds) -> (r: Result<
        Vec<SharedOverlaySync>,
        OutOfFileNumbers,
    >)
        requires
            old(self)@.wf(old(ids).next),
            all_classified(old(self)@, classes@),
        ensures
            r is Ok <==> all_recones_fit(old(self)@, old(ids).next, classes@),
            r is Ok ==> (final(self)@, final(ids).next) == reconed(old(self)@, old(ids).next, classes@),
            r matches Ok(list) ==> are_recones(list@, old(self)@, old(ids).next, classes@),
            r is Err ==> recones_stopped(old(self)@, old(ids).next, classes@, (final(self)@, final(ids).next)),
            final(self)@.wf(final(ids).next),
            old(ids).next <= final(ids).next,
    {
        let ghost w = self@;
        let ghost start = ids.next;
        let open = self.open_sessions(classes);
        let mut r: Vec<SharedOverlaySync> = Vec::new();
        let mut i: usize = 0;
        while i < open.len()
            invariant
                i <= open.len(),
                w == old(self)@,
                start == old(ids).next,
                open@.len() == sorted_keys::<u64>(w.overlays.dom()).len(),
                forall|j: int| 0 <= j < open@.len() ==> is_open_session(#[trigger] open@[j], w, classes@, j),
                (self@, ids.next) == reconed_to(w, start, classes@, i as int),
                self@.wf(ids.next),
                start <= ids.next,
                r@.len() == i,
                forall|j: int| 0 <= j < i ==> is_recone(#[trigger] r@[j], w, start, classes@, j),
                forall|j: int| 0 <= j < i ==> #[trigger] recone_fits(w, start, classes@, j),
            decreases open.len() - i,
        {
            let o = &open[i];
            proof {
                assert(is_open_session(open@[i as int], w, classes@, i as int));
                lemma_reconed_base(w, start, classes@, i as int);
            }
            match self.recone_one(o, ids) {
                Ok(sync) => {
                    proof {
                        assert(recone_fits(w, start, classes@, i as int));
                    }
                    r.push(sync);
                },
                Err(error) => {
                    proof {
                        assert(!recone_fits(w, start, classes@, i as int));
                    }
                    return Err(error);
                },
            }
            i = i + 1;
        }
        Ok(r)
    }
}

/// Every session with an overlay has it made anew, and the database is told of each.
pub proof fn law_every_overlay_is_made_anew(
    list: Seq<SharedOverlaySync>,
    w: WorldView,
    next: u32,
    classes: Map<Seq<char>, Seq<Option<bool>>>,
    i: int,
)
    requires
        are_recones(list, w, next, classes),
        w.overlays.dom().finite(),
        0 <= i < list.len(),
    ensures
        list.len() == w.overlays.dom().len(),
        list[i].changed,
        list[i].change is Some,
{
    let sessions = sorted_keys::<u64>(w.overlays.dom());
    lemma_sorted_exists::<u64>(w.overlays.dom());
    crate::ordered::lemma_ascending_distinct::<u64>(sessions);
    sessions.unique_seq_to_set();
    assert(is_recone(list[i], w, next, classes, i));
}

} // verus!
