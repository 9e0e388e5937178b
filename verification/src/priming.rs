//! Which crates are worked out ahead of any request.
use crate::lookup::base_path;
use crate::fx::fx_contains;
use crate::lookup::visible_roots;
use crate::ordered::OrderedMap;
use crate::sync::overlay_or_empty;
use crate::world::{SharedWorld, WorldView};
use vstd::prelude::*;

verus! {

/// The path under which a session knows a file.
pub open spec fn session_path(w: WorldView, session: u64, workspaces: Seq<usize>, file: u32) -> Option<Seq<char>> {
    let o = overlay_or_empty(w, session);
    if o.path_by_file.contains_key(file) {
        Some(o.files[o.path_by_file[file]].display_path.text)
    } else {
        match base_path(w.base.workspaces, workspaces, file) {
            Some(path) => Some(path.text),
            None => None,
        }
    }
}

/// The crates under each path with one more.
pub open spec fn with_root(m: Map<Seq<char>, Seq<u32>>, path: Seq<char>, krate: u32) -> Map<Seq<char>, Seq<u32>> {
    m.insert(
        path,
        if m.contains_key(path) {
            m[path].push(krate)
        } else {
            seq![krate]
        },
    )
}

/// The first `n` crates, by the path of their root file: those that the session sees and whose root
/// file has a path.
pub open spec fn roots_to(
    w: WorldView,
    session: u64,
    workspaces: Seq<usize>,
    excluded: Seq<Seq<char>>,
    crates: Seq<(u32, u32)>,
    n: int,
) -> Map<Seq<char>, Seq<u32>>
    decreases n,
{
    if n <= 0 {
        Map::empty()
    } else {
        let before = roots_to(w, session, workspaces, excluded, crates, n - 1);
        let (krate, root) = crates[n - 1];
        if !visible_roots(w, session, workspaces, excluded).contains(root) {
            before
        } else {
            match session_path(w, session, workspaces, root) {
                Some(path) => with_root(before, path, krate),
                None => before,
            }
        }
    }
}

pub open spec fn crates_by_path(m: Map<Seq<char>, Vec<u32>>) -> Map<Seq<char>, Seq<u32>> {
    m.map_values(|list: Vec<u32>| list@)
}

impl SharedWorld {
    /// The crates of the database that a session sees, by the path of their root file. Each crate
    /// is given with its root file.
    pub fn priming_roots(
        &self,
        session_id: u64,
        workspaces: &Vec<usize>,
        excluded_paths: &Vec<String>,
        crates: &Vec<(u32, u32)>,
    ) -> (r: OrderedMap<String, Vec<u32>>)
        requires
            self@.overlays.contains_key(session_id) ==> self@.overlays[session_id].wf(),
        ensures
            crates_by_path(r@) == roots_to(
                self@,
                session_id,
                workspaces@,
                excluded_paths.deep_view(),
                crates@,
                crates@.len() as int,
            ),
    {
        let visible = self.session_visible_crate_roots(session_id, workspaces, excluded_paths);
        let mappings = self.session_file_mappings(session_id, workspaces);
        let ghost w = self@;
        let ghost excluded = excluded_paths.deep_view();
        let mut r: OrderedMap<String, Vec<u32>> = OrderedMap::new();
        let mut i: usize = 0;
        proof {
            assert(crates_by_path(r@) =~= Map::empty());
        }
        while i < crates.len()
            invariant
                i <= crates.len(),
                w == self@,
                visible@ == visible_roots(w, session_id, workspaces@, excluded),
                forall|f: u32|
                    #[trigger] crate::files::base_path_of(mappings.workspaces@, f) == base_path(w.base.workspaces, workspaces@, f),
                mappings.overlay_by_file@.dom() == overlay_or_empty(w, session_id).path_by_file.dom(),
                forall|f: u32|
                    #[trigger] mappings.overlay_by_file@.contains_key(f) ==> mappings.overlay_by_file@[f]@ == overlay_or_empty(
                        w,
                        session_id,
                    ).files[overlay_or_empty(w, session_id).path_by_file[f]].display_path,
                crates_by_path(r@) == roots_to(w, session_id, workspaces@, excluded, crates@, i as int),
            decreases crates.len() - i,
        {
            let ghost before = crates_by_path(r@);
            let (krate, root) = crates[i];
            if fx_contains(&visible, root) {
                proof {
                    assert(mappings.overlay_by_file@.contains_key(root) == overlay_or_empty(w, session_id).path_by_file.contains_key(
                        root,
                    ));
                }
                match mappings.path(root) {
                    Some(path) => {
                        let mut list = match r.remove(&path.text) {
                            Some(list) => list,
                            None => Vec::new(),
                        };
                        list.push(krate);
                        let ghost one = path.text@;
                        r.insert(path.text, list);
                        proof {
                            assert(session_path(w, session_id, workspaces@, root) == Some(one));
                            assert(crates_by_path(r@) =~= with_root(before, one, krate));
                        }
                    },
                    None => {},
                }
            }
            i = i + 1;
        }
        r
    }
}

/// A crate is primed under a path exactly when it is one of those given, the session sees its root file,
/// and knows it under that path.
pub proof fn law_seen_crates_are_primed(
    w: WorldView,
    session: u64,
    workspaces: Seq<usize>,
    excluded: Seq<Seq<char>>,
    crates: Seq<(u32, u32)>,
    n: int,
    path: Seq<char>,
    krate: u32,
)
    requires
        0 <= n <= crates.len(),
    ensures
        ({
            let m = roots_to(w, session, workspaces, excluded, crates, n);
            (m.contains_key(path) && m[path].contains(krate)) <==> exists|i: int|
                0 <= i < n && (#[trigger] crates[i]).0 == krate && visible_roots(w, session, workspaces, excluded).contains(crates[i].1)
                    && session_path(w, session, workspaces, crates[i].1) == Some(path)
        }),
    decreases n,
{
    if n > 0 {
        law_seen_crates_are_primed(w, session, workspaces, excluded, crates, n - 1, path, krate);
        let before = roots_to(w, session, workspaces, excluded, crates, n - 1);
        let m = roots_to(w, session, workspaces, excluded, crates, n);
        let (last, root) = crates[n - 1];
        let hit = visible_roots(w, session, workspaces, excluded).contains(root) && session_path(w, session, workspaces, root)
            == Some(path);
        if hit {
            if before.contains_key(path) {
                let (a, b) = (before[path], m[path]);
                assert(b == a.push(last));
                assert(b.contains(krate) <==> a.contains(krate) || krate == last) by {
                    if a.contains(krate) {
                        let j = a.index_of(krate);
                        assert(b[j] == krate);
                    }
                    if krate == last {
                        assert(b[a.len() as int] == krate);
                    }
                    if b.contains(krate) {
                        let j = b.index_of(krate);
                        if j < a.len() {
                            assert(a[j] == krate);
                        }
                    }
                }
            } else {
                assert(m[path] == seq![last]);
                assert(m[path][0] == last);
            }
            if krate == last {
                assert(crates[n - 1].0 == krate);
            }
        } else {
            assert(m.contains_key(path) == before.contains_key(path));
            assert(before.contains_key(path) ==> m[path] == before[path]);
        }
        if before.contains_key(path) && before[path].contains(krate) {
            let i = choose|i: int|
                0 <= i < n - 1 && (#[trigger] crates[i]).0 == krate && visible_roots(w, session, workspaces, excluded).contains(
                    crates[i].1,
                ) && session_path(w, session, workspaces, crates[i].1) == Some(path);
            assert(crates[i].0 == krate);
        }
    }
}

/// A session knows a file of its overlay under the path in its editor, and another under its path on
/// disk.
pub proof fn law_session_knows_files_by_their_paths(w: WorldView, session: u64, workspaces: Seq<usize>, file: u32)
    ensures
        w.overlays.contains_key(session) && w.overlays[session].path_by_file.contains_key(file) ==> session_path(
            w,
            session,
            workspaces,
            file,
        ) == Some(w.overlays[session].files[w.overlays[session].path_by_file[file]].display_path.text),
        !(w.overlays.contains_key(session) && w.overlays[session].path_by_file.contains_key(file)) ==> (match base_path(
            w.base.workspaces,
            workspaces,
            file,
        ) {
            Some(path) => session_path(w, session, workspaces, file) == Some(path.text),
            None => session_path(w, session, workspaces, file) is None,
        }),
{
}

} // verus!
