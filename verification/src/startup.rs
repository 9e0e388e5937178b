//! The folders that a session opens when it starts.
use vstd::prelude::*;

verus! {

#[derive(Debug)]
pub struct SessionRoots {
    pub root: String,
    pub workspace_roots: Vec<String>,
}

/// The paths of the first `n` folders, without the folders that have none.
pub open spec fn folder_paths(folders: Seq<Option<String>>, n: int) -> Seq<Seq<char>>
    decreases n,
{
    if n <= 0 {
        Seq::empty()
    } else {
        let before = folder_paths(folders, n - 1);
        match folders[n - 1] {
            Some(path) => before.push(path@),
            None => before,
        }
    }
}

/// The folders that are opened beside the root: those that the client names, or the root itself
/// where it names none that has a path.
pub open spec fn opened_folders(root: Seq<char>, folders: Option<Seq<Option<String>>>) -> Seq<Seq<char>> {
    match folders {
        Some(folders) => {
            let paths = folder_paths(folders, folders.len() as int);
            if paths.len() > 0 {
                paths
            } else {
                seq![root]
            }
        },
        None => seq![root],
    }
}

/// The root of a session and the folders it opens. The directory that the process runs in stands in
/// for a root that the client does not name; with neither, no session can start.
pub fn session_roots(
    root: Option<String>,
    current_dir: Option<String>,
    folders: Option<Vec<Option<String>>>,
) -> (r: Option<SessionRoots>)
    ensures
        r is None <==> root is None && current_dir is None,
        r matches Some(roots) ==> {
            &&& roots.root@ == (match root {
                Some(root) => root@,
                None => current_dir->0@,
            })
            &&& roots.workspace_roots.deep_view() == opened_folders(
                roots.root@,
                match folders {
                    Some(folders) => Some(folders@),
                    None => None,
                },
            )
        },
{
    let root = match root {
        Some(root) => root,
        None => match current_dir {
            Some(root) => root,
            None => return None,
        },
    };
    let mut workspace_roots: Vec<String> = Vec::new();
    if let Some(folders) = folders {
        let mut i: usize = 0;
        proof {
            assert(workspace_roots.deep_view() =~= folder_paths(folders@, 0));
        }
        while i < folders.len()
            invariant
                i <= folders@.len(),
                workspace_roots.deep_view() == folder_paths(folders@, i as int),
            decreases folders@.len() - i,
        {
            let ghost before = workspace_roots.deep_view();
            if let Some(path) = &folders[i] {
                workspace_roots.push(path.clone());
                proof {
                    assert(workspace_roots.deep_view() =~= before.push(path@));
                }
            }
            i = i + 1;
        }
    }
    if workspace_roots.len() == 0 {
        workspace_roots.push(root.clone());
        proof {
            assert(workspace_roots.deep_view() =~= seq![root@]);
        }
    }
    Some(SessionRoots { root, workspace_roots })
}

/// The name and the version that the server reports to a client.
#[derive(Debug)]
pub struct ServerInfo {
    pub name: String,
    pub version: String,
}

/// What the server reports of itself: it goes by the name of the analyzer that it runs, and by that one's
/// release with the start of its commit.
pub fn server_info(release: &str, commit: &str) -> (r: ServerInfo)
    requires
        commit@.len() >= 8,
        forall|i: int| 0 <= i < 8 ==> #[trigger] commit@[i] <= '\u{7f}',
    ensures
        r.name@ == "rust-analyzer"@,
        r.version@ == release@ + " "@ + commit@.take(8),
{
    let mut version = String::from_str(release);
    version.append(" ");
    version.append(commit.substring_char(0, 8));
    proof {
        assert(commit@.take(8) =~= commit@.subrange(0, 8));
    }
    ServerInfo { name: String::from_str("rust-analyzer"), version }
}

/// The folders that are opened are those with a path, in the order in which the client names them.
/// Where there is none of them the root is opened, and it alone.
pub proof fn law_named_folders_are_opened(root: Seq<char>, folders: Seq<Option<String>>)
    ensures
        ({
            let paths = folders.filter(|f: Option<String>| f is Some).map_values(|f: Option<String>| f->0@);
            &&& paths.len() > 0 ==> opened_folders(root, Some(folders)) == paths
            &&& paths.len() == 0 ==> opened_folders(root, Some(folders)) == seq![root]
            &&& opened_folders(root, None) == seq![root]
        }),
{
    lemma_folder_paths(folders, folders.len() as int);
    assert(folders.take(folders.len() as int) =~= folders);
}

proof fn lemma_folder_paths(folders: Seq<Option<String>>, n: int)
    requires
        0 <= n <= folders.len(),
    ensures
        folder_paths(folders, n) == folders.take(n).filter(|f: Option<String>| f is Some).map_values(|f: Option<String>| f->0@),
    decreases n,
{
    let named = |f: Option<String>| f is Some;
    let path = |f: Option<String>| f->0@;
    reveal(Seq::filter);
    if n > 0 {
        lemma_folder_paths(folders, n - 1);
        assert(folders.take(n).drop_last() =~= folders.take(n - 1));
        assert(folders.take(n).last() == folders[n - 1]);
        let before = folders.take(n - 1).filter(named);
        assert(before.push(folders[n - 1]).map_values(path) =~= before.map_values(path).push(path(folders[n - 1])));
    } else {
        assert(folders.take(n).filter(named).map_values(path) =~= Seq::<Seq<char>>::empty());
    }
}

} // verus!
