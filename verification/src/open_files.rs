//! What the files that a session has open mean for its overlay, and the settings files it sees.
use crate::base::{base_line_endings, existing_file, lemma_existing, source_root_for_path, LoadedView, SummaryView, WorkspaceSummary};
use crate::file_ids::{SharedFileIds, MAX_ANALYZED_FILE_ID};
use crate::files::LoadedWorkspaceFiles;
use crate::ordered::{lemma_sorted_keys, listed, sorted_keys};
use crate::overlay::{overlay_changed, session_overlay_changed, OverlayFileView, OverlayView};
use crate::overlay_files::{
    lemma_prepared_known, open_views, prepare_session_overlay_files, prepared, prepared_views, OpenFile, OpenFileView,
    PreparedOverlayFile, PreparedView,
};
use crate::paths::{is_ratoml, names_ratoml, FilePath, PathView};
use crate::shared::Replica;
use crate::privacy::{law_edits_are_private, next_after, room_for, seen_text};
use crate::recone::OutOfFileNumbers;
use crate::sync::{is_new_overlay, overlay_of, overlay_or_empty, synced, SharedOverlaySync};
use crate::update::{can_update, differs_to, law_typing_is_private, new_texts_to, updated_world};
use crate::view::WorkspaceView;
use crate::world::{SharedWorld, WorldView};
use vstd::prelude::*;

verus! {

/// An open file shows something else than the disk does: it is not there but in some source root,
/// or it has another text or other line endings.
pub open spec fn file_matters(w: WorldView, indexes: Seq<usize>, file: OpenFileView) -> bool {
    match existing_file(w.base.workspaces, indexes, file.path.key) {
        None => source_root_for_path(w.base, indexes, file.path.key, file.classified) is Some,
        Some(on_disk) => w.base.inputs.texts[on_disk] != file.text || base_line_endings(w.base.workspaces, indexes, on_disk)
            != Some(file.line_endings),
    }
}

/// The open files ask for an overlay, or there is one.
pub open spec fn files_matter(w: WorldView, session: u64, indexes: Seq<usize>, files: Seq<OpenFileView>) -> bool {
    ||| overlay_or_empty(w, session).files != Map::<Seq<char>, OverlayFileView>::empty()
    ||| exists|i: int| 0 <= i < files.len() && file_matters(w, indexes, #[trigger] files[i])
}

/// What is to be done with the files that a session has open: nothing; put their texts into the
/// overlay; or make the overlay anew with the files that they need.
pub enum OpenFilesPlan {
    Keep,
    Update,
    Rebuild(Vec<PreparedOverlayFile>),
}

pub enum PlanView {
    Keep,
    Update,
    Rebuild(Seq<PreparedView>),
}

impl View for OpenFilesPlan {
    type V = PlanView;

    open spec fn view(&self) -> PlanView {
        match self {
            OpenFilesPlan::Keep => PlanView::Keep,
            OpenFilesPlan::Update => PlanView::Update,
            OpenFilesPlan::Rebuild(files) => PlanView::Rebuild(prepared_views(files@)),
        }
    }
}

pub open spec fn planned(w: WorldView, session: u64, indexes: Seq<usize>, files: Seq<OpenFileView>, force: bool) -> PlanView {
    let needed = prepared(w.base, indexes, files);
    if !files_matter(w, session, indexes, files) {
        PlanView::Keep
    } else if !force && can_update(w, session, indexes, files) {
        PlanView::Update
    } else if !force && !overlay_changed(w.base, indexes, overlay_of(w, session), needed) {
        PlanView::Keep
    } else {
        PlanView::Rebuild(needed)
    }
}

impl SharedWorld {
    fn matters(&self, workspaces: &Vec<usize>, file: &OpenFile) -> (r: bool)
        requires
            self@.base.readable(),
            file.classified.len() == self.base.workspaces.len(),
        ensures
            r == file_matters(self@, workspaces@, file@),
    {
        match self.base.existing_file(workspaces, &file.path.key) {
            None => self.base.source_root_for_path(workspaces, &file.path.key, &file.classified).is_some(),
            Some(on_disk) => {
                proof {
                    lemma_existing(self@.base, workspaces@, on_disk);
                    assert(self.base.inputs.texts@.contains_key(on_disk));
                }
                let same_text = match self.base.inputs.texts.get(&on_disk) {
                    Some(text) => *text == file.text,
                    None => false,
                };
                let same_endings = match self.base.base_line_endings(workspaces, on_disk) {
                    Some(endings) => endings == file.line_endings,
                    None => false,
                };
                !same_text || !same_endings
            },
        }
    }

    /// Decides what is to be done with the files that a session has open.
    pub fn plan_open_files(
        &self,
        session_id: u64,
        workspaces: &Vec<usize>,
        files: &Vec<OpenFile>,
        force_rebuild: bool,
    ) -> (r: OpenFilesPlan)
        requires
            self@.base.readable(),
            forall|i: int| 0 <= i < files@.len() ==> (#[trigger] files@[i]).classified.len() == self.base.workspaces.len(),
        ensures
            r@ == planned(self@, session_id, workspaces@, open_views(files@), force_rebuild),
            r matches OpenFilesPlan::Rebuild(list) ==> crate::overlay_files::known_bases(self@.base, prepared_views(list@))
                && crate::overlay_files::known_roots(self@.base, prepared_views(list@)),
    {
        let ghost w = self@;
        let ghost views = open_views(files@);
        let current = self.overlays.get(&session_id);
        proof {
            assert(overlay_of(w, session_id) == (match current {
                Some(o) => Some(o@),
                None => None,
            }));
        }
        let mut needed = match current {
            Some(overlay) => {
                let empty = overlay.files_by_path.is_empty();
                proof {
                    assert(overlay@ == overlay_or_empty(w, session_id));
                    if empty {
                        assert(overlay@.files =~= Map::<Seq<char>, OverlayFileView>::empty());
                    } else if overlay@.files == Map::<Seq<char>, OverlayFileView>::empty() {
                        assert(overlay@.files.dom() =~= overlay.files_by_path@.dom());
                        assert(overlay.files_by_path@ =~= Map::empty());
                    }
                }
                !empty
            },
            None => false,
        };
        let mut i: usize = 0;
        while i < files.len() && !needed
            invariant
                i <= files.len(),
                w == self@,
                w.base.readable(),
                views == open_views(files@),
                forall|j: int| 0 <= j < files@.len() ==> (#[trigger] files@[j]).classified.len() == self.base.workspaces.len(),
                needed ==> files_matter(w, session_id, workspaces@, views),
                !needed ==> overlay_or_empty(w, session_id).files == Map::<Seq<char>, OverlayFileView>::empty(),
                !needed ==> forall|j: int| 0 <= j < i ==> !file_matters(w, workspaces@, #[trigger] views[j]),
            decreases files.len() - i, !needed as int,
        {
            proof {
                assert(views[i as int] == files@[i as int]@);
            }
            if self.matters(workspaces, &files[i]) {
                needed = true;
                proof {
                    assert(file_matters(w, workspaces@, views[i as int]));
                }
            }
            i = i + 1;
        }
        proof {
            assert(needed == files_matter(w, session_id, workspaces@, views));
        }
        if !needed {
            return OpenFilesPlan::Keep;
        }
        if !force_rebuild && self.can_update_session_overlay(session_id, workspaces, files) {
            return OpenFilesPlan::Update;
        }
        let prepared_files = prepare_session_overlay_files(&self.base, workspaces, files);
        if !force_rebuild && !session_overlay_changed(&self.base, workspaces, current, &prepared_files) {
            return OpenFilesPlan::Keep;
        }
        OpenFilesPlan::Rebuild(prepared_files)
    }
}

/// The world once a session's open files are in its overlay.
pub open spec fn open_synced(w: WorldView, session: u64, indexes: Seq<usize>, files: Seq<OpenFileView>, force: bool, next: u32) -> WorldView {
    match planned(w, session, indexes, files, force) {
        PlanView::Keep => w,
        PlanView::Update => updated_world(w, session, files),
        PlanView::Rebuild(needed) => synced(w, session, indexes, needed, force, next),
    }
}

/// There are numbers for the files that the session's overlay is to hold.
pub open spec fn open_fits(w: WorldView, session: u64, indexes: Seq<usize>, files: Seq<OpenFileView>, force: bool, next: u32) -> bool {
    planned(w, session, indexes, files, force) matches PlanView::Rebuild(needed) ==> room_for(w, session, indexes, needed, force, next)
}

/// The next file number once a session's open files are in its overlay.
pub open spec fn open_next(w: WorldView, session: u64, indexes: Seq<usize>, files: Seq<OpenFileView>, force: bool, next: u32) -> int {
    match planned(w, session, indexes, files, force) {
        PlanView::Rebuild(needed) => next_after(w, session, indexes, needed, force, next),
        _ => next as int,
    }
}

impl SharedWorld {
    /// Brings a session's overlay in step with the files that it has open. The second result lists
    /// the texts that the database is to be told, where the overlay is not made anew.
    pub fn sync_open_files(
        &mut self,
        session_id: u64,
        workspaces: &Vec<usize>,
        files: &Vec<OpenFile>,
        force_rebuild: bool,
        ids: &mut SharedFileIds,
    ) -> (r: Result<(SharedOverlaySync, Vec<(u32, Option<String>)>), OutOfFileNumbers>)
        requires
            old(self)@.wf(old(ids).next),
            forall|i: int| 0 <= i < files@.len() ==> (#[trigger] files@[i]).classified.len() == old(self).base.workspaces.len(),
        ensures
            r is Ok <==> open_fits(old(self)@, session_id, workspaces@, open_views(files@), force_rebuild, old(ids).next),
            r is Ok ==> final(self)@ == open_synced(
                old(self)@,
                session_id,
                workspaces@,
                open_views(files@),
                force_rebuild,
                old(ids).next,
            ),
            r is Err ==> final(self)@ == old(self)@,
            r matches Ok((sync, texts)) ==> (match planned(old(self)@, session_id, workspaces@, open_views(files@), force_rebuild) {
                PlanView::Keep => !sync.changed && sync.removed_files@.len() == 0 && sync.change is None && texts@.len() == 0,
                PlanView::Update => {
                    let overlay = old(self)@.overlays[session_id];
                    &&& sync.changed == differs_to(overlay, open_views(files@), files@.len() as int)
                    &&& sync.removed_files@.len() == 0
                    &&& sync.change is None
                    &&& texts.deep_view() == new_texts_to(overlay, open_views(files@), files@.len() as int)
                },
                PlanView::Rebuild(needed) => {
                    &&& is_new_overlay(sync, old(self)@, session_id, workspaces@, needed, old(ids).next)
                    &&& texts@.len() == 0
                },
            }),
            r is Ok ==> final(ids).next == open_next(
                old(self)@,
                session_id,
                workspaces@,
                open_views(files@),
                force_rebuild,
                old(ids).next,
            ),
            r is Err ==> *final(ids) == *old(ids),
            final(self)@.wf(final(ids).next),
            old(ids).next <= final(ids).next,
    {
        match self.plan_open_files(session_id, workspaces, files, force_rebuild) {
            OpenFilesPlan::Keep => Ok(
                (SharedOverlaySync { changed: false, removed_files: Vec::new(), change: None }, Vec::new()),
            ),
            OpenFilesPlan::Update => Ok(self.update_session_overlay(session_id, files)),
            OpenFilesPlan::Rebuild(needed) => {
                let count = self.needed_numbers(session_id, workspaces, &needed);
                if count as u128 + ids.next as u128 > MAX_ANALYZED_FILE_ID as u128 + 1 {
                    return Err(OutOfFileNumbers);
                }
                Ok((self.sync_session_overlay(session_id, workspaces, &needed, force_rebuild, ids), Vec::new()))
            },
        }
    }
}

/// A session's open files are its own: bringing its overlay in step changes nothing of what any
/// other session finds under any path.
pub proof fn law_open_files_are_private(
    w: WorldView,
    session: u64,
    indexes: Seq<usize>,
    files: Seq<OpenFileView>,
    force: bool,
    next: u32,
    other: u64,
    other_indexes: Seq<usize>,
    key: Seq<char>,
)
    requires
        w.wf(next),
        open_fits(w, session, indexes, files, force, next),
        other != session,
    ensures
        seen_text(open_synced(w, session, indexes, files, force, next), other, other_indexes, key) == seen_text(
            w,
            other,
            other_indexes,
            key,
        ),
{
    match planned(w, session, indexes, files, force) {
        PlanView::Keep => {},
        PlanView::Update => {
            law_typing_is_private(w, session, files, next, other, other_indexes, key);
        },
        PlanView::Rebuild(needed) => {
            lemma_prepared_known(w.base, indexes, files);
            law_edits_are_private(w, session, indexes, needed, force, next, other, other_indexes, key);
        },
    }
}

/// A settings file that a session sees: where it is, and its text.
#[derive(Debug)]
pub struct RatomlFile {
    pub path: FilePath,
    pub source_root: u32,
    pub is_library: bool,
    pub text: String,
}

#[verifier::ext_equal]
pub struct RatomlView {
    pub path: PathView,
    pub source_root: u32,
    pub is_library: bool,
    pub text: Seq<char>,
}

impl View for RatomlFile {
    type V = RatomlView;

    open spec fn view(&self) -> RatomlView {
        RatomlView { path: self.path@, source_root: self.source_root, is_library: self.is_library, text: self.text@ }
    }
}

pub open spec fn ratoml_views(files: Seq<RatomlFile>) -> Seq<RatomlView> {
    files.map_values(|f: RatomlFile| f@)
}

/// The settings files among the first `n` files of a workspace, by ascending number.
pub open spec fn disk_ratoml_to(w: WorldView, index: int, n: int) -> Seq<RatomlView>
    decreases n,
{
    if n <= 0 {
        Seq::empty()
    } else {
        let before = disk_ratoml_to(w, index, n - 1);
        let files = w.base.workspaces[index].files;
        let f = sorted_keys::<u32>(files.by_id.dom())[n - 1];
        if files.file_exists(f) && is_ratoml(files.by_id[f].path.text) {
            let root = w.base.inputs.file_roots[f];
            before.push(
                RatomlView {
                    path: files.by_id[f].path,
                    source_root: root,
                    is_library: w.base.inputs.roots[root as int].is_library,
                    text: w.base.inputs.texts[f],
                },
            )
        } else {
            before
        }
    }
}

/// The settings files on disk in the first `n` of the workspaces in view.
pub open spec fn view_ratoml_to(w: WorldView, indexes: Seq<usize>, n: int) -> Seq<RatomlView>
    decreases n,
{
    if n <= 0 {
        Seq::empty()
    } else {
        let before = view_ratoml_to(w, indexes, n - 1);
        let index = indexes[n - 1] as int;
        if index < w.base.workspaces.len() {
            before + disk_ratoml_to(w, index, sorted_keys::<u32>(w.base.workspaces[index].files.by_id.dom()).len() as int)
        } else {
            before
        }
    }
}

/// The settings files among the first `n` that the session has open, by path.
pub open spec fn open_ratoml_to(o: OverlayView, n: int) -> Seq<RatomlView>
    decreases n,
{
    if n <= 0 {
        Seq::empty()
    } else {
        let before = open_ratoml_to(o, n - 1);
        let file = o.files[sorted_keys::<String>(o.open_files.dom())[n - 1]];
        if is_ratoml(file.display_path.text) {
            before.push(
                RatomlView {
                    path: file.display_path,
                    source_root: file.base_source_root,
                    is_library: false,
                    text: file.text,
                },
            )
        } else {
            before
        }
    }
}

/// The settings files that a session sees: those on disk, and behind them those it has open.
pub open spec fn ratoml_seen(w: WorldView, session: u64, indexes: Seq<usize>) -> Seq<RatomlView> {
    let o = overlay_or_empty(w, session);
    view_ratoml_to(w, indexes, indexes.len() as int) + open_ratoml_to(o, sorted_keys::<String>(o.open_files.dom()).len() as int)
}

/// The summaries of the workspaces at the first `n` places, as far as there are any.
pub open spec fn summaries_to(ws: Seq<LoadedView>, indexes: Seq<usize>, n: int) -> Seq<SummaryView>
    decreases n,
{
    if n <= 0 {
        Seq::empty()
    } else if indexes[n - 1] < ws.len() {
        summaries_to(ws, indexes, n - 1).push(ws[indexes[n - 1] as int].summary)
    } else {
        summaries_to(ws, indexes, n - 1)
    }
}

impl SharedWorld {
    fn push_disk_ratoml(&self, r: &mut Vec<RatomlFile>, index: usize)
        requires
            self@.base.readable(),
            index < self@.base.workspaces.len(),
        ensures
            ratoml_views(final(r)@) == ratoml_views(old(r)@) + disk_ratoml_to(
                self@,
                index as int,
                sorted_keys::<u32>(self@.base.workspaces[index as int].files.by_id.dom()).len() as int,
            ),
    {
        let ghost w = self@;
        let ghost start = ratoml_views(r@);
        let files: &LoadedWorkspaceFiles = &self.base.workspaces[index].files;
        let n = files.files_by_id.len();
        let mut i: usize = 0;
        proof {
            assert(w.base.workspaces[index as int] == self.base.workspaces@[index as int]@);
            lemma_sorted_keys(files.files_by_id);
            assert(files@.by_id.dom() =~= files.files_by_id@.dom());
            assert(ratoml_views(r@) =~= start + disk_ratoml_to(w, index as int, 0));
        }
        while i < n
            invariant
                i <= n,
                n == files.files_by_id.keys().len(),
                listed(files.files_by_id),
                w == self@,
                w.base.readable(),
                index < w.base.workspaces.len(),
                w.base.workspaces[index as int].files == files@,
                files.files_by_id.keys() == sorted_keys::<u32>(files@.by_id.dom()),
                ratoml_views(r@) == start + disk_ratoml_to(w, index as int, i as int),
            decreases n - i,
        {
            let file: u32 = *files.files_by_id.key_at(i);
            let entry = files.files_by_id.value_at(i);
            proof {
                assert(files.files_by_id@.contains_key(files.files_by_id.keys()[i as int]));
                assert(files@.by_id[file].path == entry.path@ && files@.file_exists(file) == entry.exists);
            }
            if entry.exists && names_ratoml(&entry.path.text) {
                proof {
                    assert(w.base.workspaces[index as int].files.file_exists(file));
                    assert(w.base.has_file(file));
                    assert(self.base.inputs.texts@.contains_key(file));
                }
                let root = self.base.source_root_for_file(file);
                let text = match self.base.inputs.texts.get(&file) {
                    Some(text) => text.clone(),
                    None => String::new(),
                };
                let found = RatomlFile {
                    path: entry.path.replica(),
                    source_root: root,
                    is_library: self.base.inputs.roots[root as usize].is_library,
                    text,
                };
                let ghost before = ratoml_views(r@);
                let ghost view = found@;
                r.push(found);
                proof {
                    assert(w.base.inputs.roots[root as int] == self.base.inputs.roots@[root as int]@);
                    assert(ratoml_views(r@) =~= before.push(view));
                    assert(ratoml_views(r@) =~= start + disk_ratoml_to(w, index as int, i + 1));
                }
            }
            i = i + 1;
        }
    }

    /// The settings files that a session sees.
    pub fn ratoml_files(&self, session_id: u64, workspaces: &Vec<usize>) -> (r: Vec<RatomlFile>)
        requires
            self@.base.readable(),
            self@.overlays.contains_key(session_id) ==> self@.overlays[session_id].wf(),
        ensures
            ratoml_views(r@) == ratoml_seen(self@, session_id, workspaces@),
    {
        let ghost w = self@;
        let mut r: Vec<RatomlFile> = Vec::new();
        let mut i: usize = 0;
        proof {
            assert(ratoml_views(r@) =~= Seq::empty());
        }
        while i < workspaces.len()
            invariant
                i <= workspaces.len(),
                w == self@,
                w.base.readable(),
                ratoml_views(r@) == view_ratoml_to(w, workspaces@, i as int),
            decreases workspaces.len() - i,
        {
            if workspaces[i] < self.base.workspaces.len() {
                self.push_disk_ratoml(&mut r, workspaces[i]);
            }
            i = i + 1;
        }
        let ghost on_disk = ratoml_views(r@);
        match self.overlays.get(&session_id) {
            Some(overlay) => {
                let n = overlay.open_files.len();
                let ghost o = overlay@;
                let mut k: usize = 0;
                proof {
                    assert(o == overlay_or_empty(w, session_id));
                    assert(w.overlays.contains_key(session_id));
                    lemma_sorted_keys(overlay.open_files);
                    assert(o.open_files.dom() =~= overlay.open_files@.dom());
                    assert(ratoml_views(r@) =~= on_disk + open_ratoml_to(o, 0));
                }
                while k < n
                    invariant
                        k <= n,
                        n == overlay.open_files.keys().len(),
                        listed(overlay.open_files),
                        o == overlay@,
                        o.wf(),
                        overlay.open_files.keys() == sorted_keys::<String>(o.open_files.dom()),
                        ratoml_views(r@) == on_disk + open_ratoml_to(o, k as int),
                    decreases n - k,
                {
                    let key = overlay.open_files.key_at(k);
                    proof {
                        assert(overlay.open_files@.contains_key(overlay.open_files.keys()[k as int]));
                        assert(o.open_files.contains_key(key@));
                        assert(o.files.contains_key(key@));
                        assert(overlay.files_by_path@.contains_key(key@));
                    }
                    match overlay.files_by_path.get(key) {
                        Some(file) => {
                            proof {
                                assert(o.files[key@] == file@);
                            }
                            if names_ratoml(&file.display_path.text) {
                                let found = RatomlFile {
                                    path: file.display_path.replica(),
                                    source_root: file.base_source_root,
                                    is_library: false,
                                    text: file.text.clone(),
                                };
                                let ghost before = ratoml_views(r@);
                                let ghost view = found@;
                                r.push(found);
                                proof {
                                    assert(ratoml_views(r@) =~= before.push(view));
                                    assert(ratoml_views(r@) =~= on_disk + open_ratoml_to(o, k + 1));
                                }
                            }
                        },
                        None => {},
                    }
                    k = k + 1;
                }
            },
            None => {
                proof {
                    let o = overlay_or_empty(w, session_id);
                    crate::ordered::lemma_sorted_exists::<String>(o.open_files.dom());
                    let keys = sorted_keys::<String>(o.open_files.dom());
                    if keys.len() > 0 {
                        assert(keys.to_set().contains(keys[0]));
                    }
                    assert(on_disk =~= on_disk + open_ratoml_to(o, 0));
                }
            },
        }
        r
    }

    /// The summaries of the workspaces in a view.
    pub fn workspace_summaries(&self, view: &WorkspaceView) -> (r: Vec<WorkspaceSummary>)
        ensures
            r@.map_values(|s: WorkspaceSummary| s@) == summaries_to(
                self@.base.workspaces,
                view@.workspaces,
                view@.workspaces.len() as int,
            ),
    {
        let indexes = view.workspace_indexes();
        let ghost ws = self@.base.workspaces;
        let mut r: Vec<WorkspaceSummary> = Vec::new();
        let mut i: usize = 0;
        proof {
            assert(r@.map_values(|s: WorkspaceSummary| s@) =~= Seq::empty());
        }
        while i < indexes.len()
            invariant
                i <= indexes.len(),
                ws == self@.base.workspaces,
                r@.map_values(|s: WorkspaceSummary| s@) == summaries_to(ws, indexes@, i as int),
            decreases indexes.len() - i,
        {
            let index: usize = indexes[i];
            if index < self.base.workspaces.len() {
                let ghost before = r@.map_values(|s: WorkspaceSummary| s@);
                let summary = self.base.workspaces[index].summary.duplicate();
                proof {
                    assert(ws[index as int] == self.base.workspaces@[index as int]@);
                }
                let ghost one = summary@;
                r.push(summary);
                proof {
                    assert(r@.map_values(|s: WorkspaceSummary| s@) =~= before.push(one));
                }
            }
            i = i + 1;
        }
        r
    }
}

/// The settings that a session sees are those on disk, and behind them those that it has open.
pub proof fn law_open_settings_come_behind_the_disk(w: WorldView, session: u64, indexes: Seq<usize>)
    ensures
        ({
            let o = overlay_or_empty(w, session);
            let disk = view_ratoml_to(w, indexes, indexes.len() as int);
            let open = open_ratoml_to(o, sorted_keys::<String>(o.open_files.dom()).len() as int);
            &&& ratoml_seen(w, session, indexes).take(disk.len() as int) == disk
            &&& ratoml_seen(w, session, indexes).skip(disk.len() as int) == open
        }),
{
    let o = overlay_or_empty(w, session);
    let disk = view_ratoml_to(w, indexes, indexes.len() as int);
    let open = open_ratoml_to(o, sorted_keys::<String>(o.open_files.dom()).len() as int);
    assert((disk + open).take(disk.len() as int) =~= disk);
    assert((disk + open).skip(disk.len() as int) =~= open);
}

} // verus!
