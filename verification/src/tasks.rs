//! What becomes of the work that a session has given out.
use crate::disk::SharedBaseFileChange;
use crate::files::SharedFileMappings;
use crate::paths::FilePath;
use crate::reload_state::{BuildDataResponse, OpQueue, ReloadState};
use crate::text::{decode, decoded};
use vstd::prelude::*;

verus! {

/// What a client is told of a request.
#[derive(Clone, Copy, Debug, PartialEq, Eq, Structural)]
pub enum RequestAnswer {
    /// The result.
    Reply,
    /// Nothing yet: the request is tried again.
    Retry,
    /// That the request was cancelled.
    Refuse,
}

/// A request that ran to its end is answered. One that was cancelled is tried again where that is
/// allowed, or where the session itself has not edited anything since.
pub fn answer_request(cancelled: bool, allow_retrying: bool, dispatched_generation: u64, edit_generation: u64) -> (r: RequestAnswer)
    ensures
        r == RequestAnswer::Reply <==> !cancelled,
        r == RequestAnswer::Retry <==> cancelled && (allow_retrying || edit_generation == dispatched_generation),
        r == RequestAnswer::Refuse <==> cancelled && !allow_retrying && edit_generation != dispatched_generation,
{
    if !cancelled {
        RequestAnswer::Reply
    } else if allow_retrying || edit_generation == dispatched_generation {
        RequestAnswer::Retry
    } else {
        RequestAnswer::Refuse
    }
}

impl ReloadState {
    /// The workspaces have come in: the session is to go over to them.
    pub fn workspaces_fetched(&mut self)
        requires
            old(self).fetch_workspaces_queue.in_progress,
        ensures
            *final(self) == (ReloadState {
                fetch_workspaces_queue: OpQueue { in_progress: false, ..old(self).fetch_workspaces_queue },
                wants_to_switch: true,
                ..*old(self)
            }),
    {
        self.fetch_workspaces_queue.op_completed();
        self.wants_to_switch = true;
    }

    /// Build data for a list of workspaces has come in, for the rebuild or reload that asked for it:
    /// the session is to put it to use.
    pub fn build_data_fetched(&mut self, workspaces: u64)
        requires
            old(self).fetch_build_data_queue.in_progress,
        ensures
            *final(self) == (ReloadState {
                fetch_build_data_queue: OpQueue { in_progress: false, ..old(self).fetch_build_data_queue },
                build_data_response: Some(
                    BuildDataResponse {
                        rebuild_id: old(self).build_data_rebuild_id,
                        reload: old(self).build_data_reload,
                        workspaces,
                    },
                ),
                wants_to_switch: true,
                ..*old(self)
            }),
    {
        self.fetch_build_data_queue.op_completed();
        self.build_data_response = Some(
            BuildDataResponse { rebuild_id: self.build_data_rebuild_id, reload: self.build_data_reload, workspaces },
        );
        self.wants_to_switch = true;
    }

    /// The session uses a list of workspaces from now on.
    pub fn use_workspaces(&mut self, workspaces: u64)
        ensures
            *final(self) == (ReloadState { workspaces, ..*old(self) }),
    {
        self.workspaces = workspaces;
    }
}

/// Macros count as loaded where they are not expanded, or where they were loaded last time.
pub fn proc_macros_loaded(expand_proc_macros: bool, last_result: Option<bool>) -> (r: bool)
    ensures
        r == (!expand_proc_macros || last_result == Some(true)),
{
    !expand_proc_macros || match last_result {
        Some(loaded) => loaded,
        None => false,
    }
}

/// The files of the first `n` documents, without those that the session does not know.
pub open spec fn document_files_to(m: SharedFileMappings, documents: Seq<FilePath>, n: int) -> Seq<u32>
    decreases n,
{
    if n <= 0 {
        Seq::empty()
    } else {
        let before = document_files_to(m, documents, n - 1);
        match m.lookup(documents[n - 1].key@) {
            Some(file) => before.push(file),
            None => before,
        }
    }
}

/// The files of the open documents that the session knows.
pub fn document_files(mappings: &SharedFileMappings, documents: &Vec<FilePath>) -> (r: Vec<u32>)
    ensures
        r@ == document_files_to(*mappings, documents@, documents@.len() as int),
{
    let mut r: Vec<u32> = Vec::new();
    let mut i: usize = 0;
    while i < documents.len()
        invariant
            i <= documents.len(),
            r@ == document_files_to(*mappings, documents@, i as int),
        decreases documents.len() - i,
    {
        match mappings.file_id(&documents[i]) {
            Some(file) => {
                r.push(file);
            },
            None => {},
        }
        i = i + 1;
    }
    r
}

/// Of the first `n` files those that are known to belong to no library.
pub open spec fn workspace_files_to(files: Seq<u32>, library: Seq<Option<bool>>, n: int) -> Seq<u32>
    decreases n,
{
    if n <= 0 {
        Seq::empty()
    } else {
        let before = workspace_files_to(files, library, n - 1);
        if library[n - 1] == Some(false) {
            before.push(files[n - 1])
        } else {
            before
        }
    }
}

/// The files that diagnostics and tests are looked for in: those that are known to belong to no
/// library. `library` tells it for each file, where it could be told.
pub fn workspace_file_ids(files: &Vec<u32>, library: &Vec<Option<bool>>) -> (r: Vec<u32>)
    requires
        files@.len() == library@.len(),
    ensures
        r@ == workspace_files_to(files@, library@, files@.len() as int),
{
    let mut r: Vec<u32> = Vec::new();
    let mut i: usize = 0;
    while i < files.len()
        invariant
            i <= files.len(),
            files@.len() == library@.len(),
            r@ == workspace_files_to(files@, library@, i as int),
        decreases files.len() - i,
    {
        match library[i] {
            Some(is_library) => {
                if !is_library {
                    r.push(files[i]);
                }
            },
            None => {},
        }
        i = i + 1;
    }
    r
}

/// What a saved document puts on disk for the other sessions: its text with plain line feeds. A
/// document that is not open and one that is no text put nothing there.
pub fn saved_document(path: FilePath, data: Option<Vec<u8>>, classified: Vec<bool>) -> (r: Option<SharedBaseFileChange>)
    ensures
        r is Some <==> (data matches Some(bytes) && decoded(bytes@) is Some),
        r matches Some(change) ==> {
            &&& change.path == path
            &&& change.exists
            &&& change.text.deep_view() == Some((decoded(data->0@)->0).0)
            &&& change.line_endings == Some((decoded(data->0@)->0).1)
            &&& change.classified == classified
        },
{
    match data {
        Some(bytes) => match decode(bytes) {
            Some((text, line_endings)) => Some(
                SharedBaseFileChange { path, exists: true, text: Some(text), line_endings: Some(line_endings), classified },
            ),
            None => None,
        },
        None => None,
    }
}

/// The files of the open documents are those that the session knows, in the order of the documents.
pub proof fn law_known_documents_have_files(m: SharedFileMappings, documents: Seq<FilePath>)
    ensures
        document_files_to(m, documents, documents.len() as int) == documents.filter(|d: FilePath| m.lookup(d.key@) is Some).map_values(
            |d: FilePath| m.lookup(d.key@)->0,
        ),
{
    lemma_document_files(m, documents, documents.len() as int);
    assert(documents.take(documents.len() as int) =~= documents);
}

proof fn lemma_document_files(m: SharedFileMappings, documents: Seq<FilePath>, n: int)
    requires
        0 <= n <= documents.len(),
    ensures
        document_files_to(m, documents, n) == documents.take(n).filter(|d: FilePath| m.lookup(d.key@) is Some).map_values(
            |d: FilePath| m.lookup(d.key@)->0,
        ),
    decreases n,
{
    let known = |d: FilePath| m.lookup(d.key@) is Some;
    let file = |d: FilePath| m.lookup(d.key@)->0;
    reveal(Seq::filter);
    if n > 0 {
        lemma_document_files(m, documents, n - 1);
        assert(documents.take(n).drop_last() =~= documents.take(n - 1));
        assert(documents.take(n).last() == documents[n - 1]);
        let before = documents.take(n - 1).filter(known);
        assert(before.push(documents[n - 1]).map_values(file) =~= before.map_values(file).push(file(documents[n - 1])));
    } else {
        assert(documents.take(n).filter(known).map_values(file) =~= Seq::<u32>::empty());
    }
}

/// Files are looked at where they are known to belong to no library: neither those of libraries nor
/// those of which it could not be told. They keep their order.
pub proof fn law_files_of_libraries_are_left_out(files: Seq<u32>, library: Seq<Option<bool>>, n: int, file: u32)
    requires
        0 <= n <= files.len(),
        files.len() == library.len(),
    ensures
        workspace_files_to(files, library, n).contains(file) <==> exists|i: int|
            0 <= i < n && #[trigger] files[i] == file && library[i] == Some(false),
        (forall|i: int| 0 <= i < n ==> #[trigger] library[i] == Some(false)) ==> workspace_files_to(files, library, n) == files.take(n),
        (forall|i: int| 0 <= i < n ==> #[trigger] library[i] != Some(false)) ==> workspace_files_to(files, library, n).len() == 0,
    decreases n,
{
    if n > 0 {
        law_files_of_libraries_are_left_out(files, library, n - 1, file);
        let before = workspace_files_to(files, library, n - 1);
        let last = files[n - 1];
        assert(before.push(last)[before.len() as int] == last);
        if before.contains(file) {
            assert(before.push(last)[before.index_of(file)] == file);
        }
        if library[n - 1] == Some(false) && before.push(last).contains(file) && !before.contains(file) {
            let at = before.push(last).index_of(file);
            assert(at == before.len());
            assert(files[n - 1] == file);
        }
        assert(files.take(n) =~= files.take(n - 1).push(last));
        assert(library[n - 1] == Some(false) || library[n - 1] != Some(false));
    }
}

} // verus!
