//! The settings that a session reads from the settings files it sees.
use crate::changes::{get, ModifiedRatoml, ModifiedView};
use crate::open_files::{RatomlFile, RatomlView};
use crate::ordered::{key_less, lemma_lex_irreflexive, lemma_lex_asymmetric, lemma_lex_transitive, OrderedKey, OrderedMap, Relation};
use crate::paths::{FilePath, PathView};
use crate::text::decode_plain;
use rustc_hash::FxHashMap;
use vstd::prelude::*;
use vstd::utf8::{decode_utf8, valid_utf8};

verus! {

#[derive(Clone, Copy, Debug, PartialEq, Eq, Structural)]
pub enum RatomlFileKind {
    Crate,
    Workspace,
}

/// The settings file of a source root: its text is missing where the file is gone.
#[derive(Debug)]
pub struct RootSettings {
    pub kind: RatomlFileKind,
    pub path: FilePath,
    pub text: Option<String>,
}

#[verifier::ext_equal]
pub struct SettingsView {
    pub kind: RatomlFileKind,
    pub path: PathView,
    pub text: Option<Seq<char>>,
}

impl View for RootSettings {
    type V = SettingsView;

    open spec fn view(&self) -> SettingsView {
        SettingsView { kind: self.kind, path: self.path@, text: self.text.deep_view() }
    }
}

/// A settings file that changed, whether it is the user's own, and the source root it is in, with
/// whether that is a library's.
#[derive(Debug)]
pub struct ChangedSettings {
    pub file: ModifiedRatoml,
    pub user: bool,
    pub root: Option<(u32, bool)>,
}

#[verifier::ext_equal]
pub struct ChangedSettingsView {
    pub file: ModifiedView,
    pub user: bool,
    pub root: Option<(u32, bool)>,
}

impl View for ChangedSettings {
    type V = ChangedSettingsView;

    open spec fn view(&self) -> ChangedSettingsView {
        ChangedSettingsView { file: self.file@, user: self.user, root: self.root }
    }
}

/// What is new in the settings.
pub struct ConfigChange {
    /// The text of the user's own settings, where it is to be taken over: missing where it is gone.
    pub user_config: Option<Option<String>>,
    /// For each source root the settings file that decides.
    pub ratoml: OrderedMap<u32, RootSettings>,
    /// The source roots that lie in others.
    pub source_root_parents: FxHashMap<u32, u32>,
}

/// A settings file that may decide for its source root.
#[verifier::ext_equal]
pub struct Candidate {
    pub path: PathView,
    pub root: u32,
    pub is_library: bool,
    pub text: Option<Seq<char>>,
}

pub open spec fn candidate(keys: Seq<Seq<char>>, c: Candidate) -> SettingsView {
    SettingsView {
        kind: if keys.contains(c.path.key) {
            RatomlFileKind::Workspace
        } else {
            RatomlFileKind::Crate
        },
        path: c.path.normalized(),
        text: c.text,
    }
}

/// One more candidate: it decides unless it is a library's or another has a smaller path.
pub open spec fn decided(m: Map<u32, SettingsView>, keys: Seq<Seq<char>>, c: Candidate) -> Map<u32, SettingsView> {
    if c.is_library || (m.contains_key(c.root) && key_less::<String>(m[c.root].path.key, c.path.key)) {
        m
    } else {
        m.insert(c.root, candidate(keys, c))
    }
}

/// The settings files that decide among the first `n` candidates.
pub open spec fn decided_to(keys: Seq<Seq<char>>, list: Seq<Candidate>, n: int) -> Map<u32, SettingsView>
    decreases n,
{
    if n <= 0 {
        Map::empty()
    } else {
        decided(decided_to(keys, list, n - 1), keys, list[n - 1])
    }
}

pub open spec fn seen_candidate(f: RatomlView) -> Candidate {
    Candidate { path: f.path, root: f.source_root, is_library: f.is_library, text: Some(f.text) }
}

/// The candidates among the first `n` changed files: those that are in a source root.
pub open spec fn changed_candidates(list: Seq<ChangedSettingsView>, n: int) -> Seq<Candidate>
    decreases n,
{
    if n <= 0 {
        Seq::empty()
    } else {
        let before = changed_candidates(list, n - 1);
        match list[n - 1].root {
            Some((root, is_library)) => before.push(
                Candidate { path: list[n - 1].file.path, root, is_library, text: list[n - 1].file.text },
            ),
            None => before,
        }
    }
}

pub open spec fn candidates(seen: Seq<RatomlView>, changed: Seq<ChangedSettingsView>) -> Seq<Candidate> {
    seen.map_values(|f: RatomlView| seen_candidate(f)) + changed_candidates(changed, changed.len() as int)
}

/// The user's settings after the first `n` changed files: the last of them that is the user's.
pub open spec fn user_config_to(list: Seq<ChangedSettingsView>, n: int) -> Option<Option<Seq<char>>>
    decreases n,
{
    if n <= 0 {
        None
    } else if list[n - 1].user {
        Some(list[n - 1].file.text)
    } else {
        user_config_to(list, n - 1)
    }
}

pub open spec fn user_config(list: Seq<ChangedSettingsView>, text: Option<Seq<char>>) -> Option<Option<Seq<char>>> {
    match user_config_to(list, list.len() as int) {
        Some(text) => Some(text),
        None => match text {
            Some(text) => Some(Some(text)),
            None => None,
        },
    }
}

pub open spec fn user_view(config: Option<Option<String>>) -> Option<Option<Seq<char>>> {
    match config {
        Some(text) => Some(text.deep_view()),
        None => None,
    }
}

pub open spec fn settings_views(m: Map<u32, RootSettings>) -> Map<u32, SettingsView> {
    m.map_values(|s: RootSettings| s@)
}

pub open spec fn changed_settings_views(list: Seq<ChangedSettings>) -> Seq<ChangedSettingsView> {
    list.map_values(|c: ChangedSettings| c@)
}

fn contains_text(keys: &Vec<String>, key: &String) -> (r: bool)
    ensures
        r == keys.deep_view().contains(key@),
{
    let mut i: usize = 0;
    proof {
        assert(keys.deep_view().len() == keys@.len());
    }
    while i < keys.len()
        invariant
            i <= keys.len(),
            keys.deep_view().len() == keys@.len(),
            forall|j: int| 0 <= j < i ==> keys.deep_view()[j] != key@,
        decreases keys.len() - i,
    {
        proof {
            assert(keys.deep_view()[i as int] == keys@[i as int]@);
        }
        if keys[i] == *key {
            proof {
                assert(keys.deep_view()[i as int] == key@);
            }
            return true;
        }
        i = i + 1;
    }
    false
}

impl ConfigChange {
    fn decide(&mut self, keys: &Vec<String>, path: &FilePath, root: u32, is_library: bool, text: Option<String>)
        ensures
            final(self).user_config == old(self).user_config,
            final(self).source_root_parents == old(self).source_root_parents,
            settings_views(final(self).ratoml@) == decided(
                settings_views(old(self).ratoml@),
                keys.deep_view(),
                (Candidate { path: path@, root, is_library, text: text.deep_view() }),
            ),
    {
        let ghost before = settings_views(self.ratoml@);
        if is_library {
            return;
        }
        let keeps = match self.ratoml.get(&root) {
            Some(old) => match old.path.key.relation(&path.key) {
                Relation::Less => true,
                Relation::Equal => {
                    proof {
                        String::rank_injective(old.path.key@, path.key@);
                        lemma_lex_irreflexive(String::rank(path.key@));
                    }
                    false
                },
                Relation::Greater => {
                    proof {
                        if key_less::<String>(old.path.key@, path.key@) {
                            lemma_lex_asymmetric(String::rank(old.path.key@), String::rank(path.key@));
                        }
                    }
                    false
                },
            },
            None => false,
        };
        if keeps {
            return;
        }
        let kind = if contains_text(keys, &path.key) {
            RatomlFileKind::Workspace
        } else {
            RatomlFileKind::Crate
        };
        let settings = RootSettings { kind, path: path.normalized(), text };
        let ghost one = settings@;
        self.ratoml.insert(root, settings);
        proof {
            assert(settings_views(self.ratoml@) =~= before.insert(root, one));
        }
    }
}

/// The text of the user's own settings: as the editor has it open, where that is text, and else as
/// it is on disk.
pub fn user_config_text(open: Option<Vec<u8>>, on_disk: Option<String>) -> (r: Option<String>)
    ensures
        r.deep_view() == (match open {
            Some(data) => if valid_utf8(data@) {
                Some(decode_utf8(data@))
            } else {
                on_disk.deep_view()
            },
            None => on_disk.deep_view(),
        }),
{
    match open {
        Some(data) => match decode_plain(data) {
            Some(text) => Some(text),
            None => on_disk,
        },
        None => on_disk,
    }
}

/// What is new in the settings: the settings files that the session sees and those that changed are
/// gone through, of which those of the workspaces are known by their keys, and the user's own text
/// is taken over.
pub fn config_change_from_ratoml(
    changed: &Vec<ChangedSettings>,
    seen: &Vec<RatomlFile>,
    user_config_text: Option<String>,
    workspace_ratoml_keys: &Vec<String>,
    source_root_parents: FxHashMap<u32, u32>,
) -> (r: ConfigChange)
    ensures
        user_view(r.user_config) == user_config(changed_settings_views(changed@), user_config_text.deep_view()),
        settings_views(r.ratoml@) == ({
            let list = candidates(crate::open_files::ratoml_views(seen@), changed_settings_views(changed@));
            decided_to(workspace_ratoml_keys.deep_view(), list, list.len() as int)
        }),
        r.source_root_parents@ == source_root_parents@,
{
    let ghost keys = workspace_ratoml_keys.deep_view();
    let ghost first = crate::open_files::ratoml_views(seen@);
    let ghost second = changed_settings_views(changed@);
    let ghost list = candidates(first, second);
    let mut r = ConfigChange { user_config: None, ratoml: OrderedMap::new(), source_root_parents };
    let mut i: usize = 0;
    proof {
        assert(settings_views(r.ratoml@) =~= Map::empty());
    }
    while i < seen.len()
        invariant
            i <= seen.len(),
            keys == workspace_ratoml_keys.deep_view(),
            first == crate::open_files::ratoml_views(seen@),
            list == candidates(first, second),
            r.user_config is None,
            r.source_root_parents@ == source_root_parents@,
            settings_views(r.ratoml@) == decided_to(keys, list, i as int),
        decreases seen.len() - i,
    {
        let file = &seen[i];
        proof {
            assert(first[i as int] == file@);
            assert(list[i as int] == seen_candidate(file@));
        }
        r.decide(workspace_ratoml_keys, &file.path, file.source_root, file.is_library, Some(file.text.clone()));
        i = i + 1;
    }
    let mut k: usize = 0;
    while k < changed.len()
        invariant
            k <= changed.len(),
            keys == workspace_ratoml_keys.deep_view(),
            first.len() == seen@.len(),
            second == changed_settings_views(changed@),
            list == candidates(first, second),
            r.source_root_parents@ == source_root_parents@,
            user_view(r.user_config) == user_config_to(second, k as int),
            first.len() + changed_candidates(second, k as int).len() <= list.len(),
            settings_views(r.ratoml@) == decided_to(keys, list, (first.len() + changed_candidates(second, k as int).len()) as int),
        decreases changed.len() - k,
    {
        let file = &changed[k];
        proof {
            assert(second[k as int] == file@);
            lemma_prefix(second, k + 1, second.len() as int);
        }
        if file.user {
            r.user_config = Some(
                match &file.file.text {
                    Some(text) => Some(text.clone()),
                    None => None,
                },
            );
        }
        match file.root {
            Some((root, is_library)) => {
                let text = match &file.file.text {
                    Some(text) => Some(text.clone()),
                    None => None,
                };
                proof {
                    let at = changed_candidates(second, k as int).len() as int;
                    assert(changed_candidates(second, k + 1).len() == at + 1);
                    assert(list[first.len() + at] == changed_candidates(second, second.len() as int)[at]);
                    assert(changed_candidates(second, k + 1)[at] == changed_candidates(second, second.len() as int)[at]);
                }
                r.decide(workspace_ratoml_keys, &file.file.path, root, is_library, text);
            },
            None => {},
        }
        k = k + 1;
    }
    if r.user_config.is_none() {
        match user_config_text {
            Some(text) => {
                r.user_config = Some(Some(text));
            },
            None => {},
        }
    }
    r
}

proof fn lemma_prefix(list: Seq<ChangedSettingsView>, n: int, m: int)
    requires
        0 <= n <= m,
    ensures
        changed_candidates(list, n).len() <= changed_candidates(list, m).len(),
        forall|i: int|
            0 <= i < changed_candidates(list, n).len() ==> changed_candidates(list, n)[i] == #[trigger] changed_candidates(list, m)[i],
    decreases m - n,
{
    if n < m {
        lemma_prefix(list, n, m - 1);
        let a = changed_candidates(list, m - 1);
        let b = changed_candidates(list, m);
        assert forall|i: int| 0 <= i < changed_candidates(list, n).len() implies changed_candidates(list, n)[i] == #[trigger] b[i] by {
            assert(a[i] == b[i]);
        }
    }
}

/// For each source root with a settings file that is not a library's, one decides: it is one of
/// them, and none of them has a smaller path.
pub proof fn law_smallest_path_decides(keys: Seq<Seq<char>>, list: Seq<Candidate>, n: int, i: int)
    requires
        0 <= i < n <= list.len(),
        !list[i].is_library,
    ensures
        decided_to(keys, list, n).contains_key(list[i].root),
        !key_less::<String>(list[i].path.key, decided_to(keys, list, n)[list[i].root].path.key),
        exists|j: int|
            0 <= j < n && !(#[trigger] list[j]).is_library && list[j].root == list[i].root && decided_to(keys, list, n)[list[i].root]
                == candidate(keys, list[j]),
    decreases n,
{
    let before = decided_to(keys, list, n - 1);
    let after = decided_to(keys, list, n);
    let c = list[n - 1];
    let root = list[i].root;
    if i < n - 1 {
        law_smallest_path_decides(keys, list, n - 1, i);
        let j = choose|j: int|
            0 <= j < n - 1 && !(#[trigger] list[j]).is_library && list[j].root == root && before[root] == candidate(keys, list[j]);
        if !c.is_library && c.root == root && !key_less::<String>(before[root].path.key, c.path.key) {
            assert(after[root] == candidate(keys, c));
            if key_less::<String>(list[i].path.key, c.path.key) {
                crate::ordered::lemma_lex_total(String::rank(before[root].path.key), String::rank(c.path.key));
                if String::rank(before[root].path.key) == String::rank(c.path.key) {
                    String::rank_injective(before[root].path.key, c.path.key);
                } else {
                    lemma_lex_transitive(
                        String::rank(list[i].path.key),
                        String::rank(c.path.key),
                        String::rank(before[root].path.key),
                    );
                }
            }
        } else {
            assert(after[root] == candidate(keys, list[j]));
        }
    } else {
        lemma_lex_irreflexive(String::rank(c.path.key));
        if before.contains_key(root) && key_less::<String>(before[root].path.key, c.path.key) {
            lemma_from_list(keys, list, n - 1, root);
            if key_less::<String>(c.path.key, before[root].path.key) {
                lemma_lex_asymmetric(String::rank(c.path.key), String::rank(before[root].path.key));
            }
        }
    }
}

proof fn lemma_from_list(keys: Seq<Seq<char>>, list: Seq<Candidate>, n: int, root: u32)
    requires
        0 <= n <= list.len(),
        decided_to(keys, list, n).contains_key(root),
    ensures
        exists|j: int|
            0 <= j < n && !(#[trigger] list[j]).is_library && list[j].root == root && decided_to(keys, list, n)[root] == candidate(
                keys,
                list[j],
            ),
    decreases n,
{
    if n > 0 {
        let before = decided_to(keys, list, n - 1);
        let c = list[n - 1];
        if !c.is_library && c.root == root && !(before.contains_key(root) && key_less::<String>(before[root].path.key, c.path.key)) {
            assert(decided_to(keys, list, n)[root] == candidate(keys, c));
        } else {
            lemma_from_list(keys, list, n - 1, root);
            let j = choose|j: int|
                0 <= j < n - 1 && !(#[trigger] list[j]).is_library && list[j].root == root && before[root] == candidate(keys, list[j]);
            assert(decided_to(keys, list, n)[root] == candidate(keys, list[j]));
        }
    }
}

/// A settings file is one of a workspace exactly when its path is among those of the workspaces, and else
/// one of a crate. It is known by its canonical path, with its text.
pub proof fn law_workspace_settings_are_told_apart(keys: Seq<Seq<char>>, c: Candidate)
    ensures
        candidate(keys, c).kind == RatomlFileKind::Workspace <==> exists|i: int| 0 <= i < keys.len() && #[trigger] keys[i] == c.path.key,
        candidate(keys, c).path.key == c.path.key,
        candidate(keys, c).path.text == c.path.key,
        candidate(keys, c).text == c.text,
{
    if keys.contains(c.path.key) {
        let i = keys.index_of(c.path.key);
        assert(keys[i] == c.path.key);
    }
}

/// No library's settings decide: a source root has settings exactly when it has a settings file that is
/// not a library's.
pub proof fn law_library_settings_do_not_count(keys: Seq<Seq<char>>, list: Seq<Candidate>, n: int, root: u32)
    requires
        0 <= n <= list.len(),
    ensures
        decided_to(keys, list, n).contains_key(root) <==> exists|j: int|
            0 <= j < n && (#[trigger] list[j]).root == root && !list[j].is_library,
{
    if decided_to(keys, list, n).contains_key(root) {
        lemma_from_list(keys, list, n, root);
        let j = choose|j: int|
            0 <= j < n && !(#[trigger] list[j]).is_library && list[j].root == root && decided_to(keys, list, n)[root] == candidate(
                keys,
                list[j],
            );
        assert(list[j].root == root);
    }
    if exists|j: int| 0 <= j < n && (#[trigger] list[j]).root == root && !list[j].is_library {
        let j = choose|j: int| 0 <= j < n && (#[trigger] list[j]).root == root && !list[j].is_library;
        law_smallest_path_decides(keys, list, n, j);
    }
}

/// Of settings files of one path the later one decides, so that a changed file takes the place of what was
/// seen of it before: a file decides if no later file of its source root has its path or a smaller one,
/// and no earlier one a smaller one.
pub proof fn law_later_settings_decide(keys: Seq<Seq<char>>, list: Seq<Candidate>, n: int, j: int)
    requires
        0 <= j < n <= list.len(),
        !list[j].is_library,
        forall|i: int|
            0 <= i < j && (#[trigger] list[i]).root == list[j].root && !list[i].is_library ==> !key_less::<String>(
                list[i].path.key,
                list[j].path.key,
            ),
        forall|i: int|
            j < i < n && (#[trigger] list[i]).root == list[j].root && !list[i].is_library ==> key_less::<String>(
                list[j].path.key,
                list[i].path.key,
            ),
    ensures
        decided_to(keys, list, n).contains_key(list[j].root),
        decided_to(keys, list, n)[list[j].root].text == list[j].text,
        decided_to(keys, list, n)[list[j].root].path.key == list[j].path.key,
    decreases n,
{
    let root = list[j].root;
    let before = decided_to(keys, list, n - 1);
    if j < n - 1 {
        law_later_settings_decide(keys, list, n - 1, j);
        if list[n - 1].root == root && !list[n - 1].is_library {
            assert(key_less::<String>(list[j].path.key, list[n - 1].path.key));
        }
    } else if before.contains_key(root) {
        lemma_from_list(keys, list, n - 1, root);
        let i = choose|i: int|
            0 <= i < n - 1 && !(#[trigger] list[i]).is_library && list[i].root == root && before[root] == candidate(keys, list[i]);
        assert(!key_less::<String>(list[i].path.key, list[j].path.key));
    }
}

/// The settings files that are gone through are those that the session sees, each with its source root
/// and text, and behind them those that changed and have a source root, in their order.
pub proof fn law_changed_settings_come_last(seen: Seq<RatomlView>, changed: Seq<ChangedSettingsView>, n: int)
    requires
        0 <= n <= changed.len(),
    ensures
        candidates(seen, changed).len() >= seen.len(),
        forall|i: int|
            0 <= i < seen.len() ==> {
                let c = #[trigger] candidates(seen, changed)[i];
                c.path == seen[i].path && c.root == seen[i].source_root && c.is_library == seen[i].is_library && c.text == Some(
                    seen[i].text,
                )
            },
        candidates(seen, changed).skip(seen.len() as int) == changed_candidates(changed, changed.len() as int),
        ({
            let list = changed.take(n).filter(|c: ChangedSettingsView| c.root is Some);
            let made = changed_candidates(changed, n);
            &&& made.len() == list.len()
            &&& forall|k: int|
                0 <= k < list.len() ==> (#[trigger] list[k]).root == Some((made[k].root, made[k].is_library)) && made[k].path
                    == list[k].file.path && made[k].text == list[k].file.text
        }),
    decreases n,
{
    reveal(Seq::filter);
    let all = candidates(seen, changed);
    let rest = changed_candidates(changed, changed.len() as int);
    assert(all.skip(seen.len() as int) =~= rest);
    if n > 0 {
        law_changed_settings_come_last(seen, changed, n - 1);
        assert(changed.take(n).drop_last() =~= changed.take(n - 1));
        let was = changed.take(n - 1).filter(|c: ChangedSettingsView| c.root is Some);
        let list = changed.take(n).filter(|c: ChangedSettingsView| c.root is Some);
        let made = changed_candidates(changed, n);
        assert forall|k: int| 0 <= k < list.len() implies (#[trigger] list[k]).root == Some((made[k].root, made[k].is_library))
            && made[k].path == list[k].file.path && made[k].text == list[k].file.text by {
            if k < was.len() {
                assert(was[k] == list[k]);
            }
        }
    }
}

/// The user's own settings are what the last change of them left, also where it deleted them. Where they
/// did not change, they are the text that is there, if there is one, and else they are left alone.
pub proof fn law_last_change_of_user_settings_counts(list: Seq<ChangedSettingsView>, text: Option<Seq<char>>)
    ensures
        forall|i: int|
            0 <= i < list.len() && (#[trigger] list[i]).user && (forall|j: int| i < j < list.len() ==> !(#[trigger] list[j]).user)
                ==> user_config(list, text) == Some(list[i].file.text),
        (forall|i: int| 0 <= i < list.len() ==> !(#[trigger] list[i]).user) ==> (match text {
            Some(text) => user_config(list, Some(text)) == Some(Some(text)),
            None => user_config(list, None) is None,
        }),
{
    lemma_user_config(list, list.len() as int);
}

proof fn lemma_user_config(list: Seq<ChangedSettingsView>, n: int)
    requires
        0 <= n <= list.len(),
    ensures
        forall|i: int|
            0 <= i < n && (#[trigger] list[i]).user && (forall|j: int| i < j < n ==> !(#[trigger] list[j]).user) ==> user_config_to(
                list,
                n,
            ) == Some(list[i].file.text),
        (forall|i: int| 0 <= i < n ==> !(#[trigger] list[i]).user) ==> user_config_to(list, n) is None,
    decreases n,
{
    if n > 0 {
        lemma_user_config(list, n - 1);
        if list[n - 1].user {
            assert forall|i: int|
                0 <= i < n && (#[trigger] list[i]).user && (forall|j: int| i < j < n ==> !(#[trigger] list[j]).user) implies i == n - 1 by {
                assert(list[n - 1].user);
            }
        }
    }
}

} // verus!
