//! What has been put into the analysis database: texts, source roots and the crates found there.
use crate::fx::{fx_insert, fx_same, fx_set};
use crate::ordered::{listed, OrderedMap};
use crate::paths::{FilePath, PathView};
use crate::shared::map_replica;
use rustc_hash::FxHashSet;
use vstd::prelude::*;

verus! {

/// A source root: its files by number, and whether it belongs to a library.
pub struct SourceRoot {
    pub is_library: bool,
    pub files: OrderedMap<u32, FilePath>,
}

#[verifier::ext_equal]
pub struct RootView {
    pub is_library: bool,
    pub files: Map<u32, PathView>,
}

impl View for SourceRoot {
    type V = RootView;

    open spec fn view(&self) -> RootView {
        RootView { is_library: self.is_library, files: self.files@.map_values(|p: FilePath| p@) }
    }
}

/// The roots hold the same files under the same paths, and are of one kind.
pub open spec fn same_root(a: RootView, b: RootView) -> bool {
    &&& a.is_library == b.is_library
    &&& a.files.dom() == b.files.dom()
    &&& forall|f: u32| #[trigger] a.files.contains_key(f) ==> a.files[f].text == b.files[f].text
}

impl SourceRoot {
    pub fn duplicate(&self) -> (r: SourceRoot)
        ensures
            r@ == self@,
    {
        SourceRoot { is_library: self.is_library, files: map_replica(&self.files) }
    }

    pub fn same(&self, other: &SourceRoot) -> (r: bool)
        ensures
            r == same_root(self@, other@),
    {
        let n = self.files.len();
        let m = other.files.len();
        if self.is_library != other.is_library {
            return false;
        }
        let mut i: usize = 0;
        while i < n
            invariant
                i <= n,
                n == self.files.keys().len(),
                listed(self.files),
                listed(other.files),
                self.is_library == other.is_library,
                forall|j: int|
                    0 <= j < i ==> other.files@.contains_key(#[trigger] self.files.keys()[j]) && other.files@[self.files.keys()[j]]@.text
                        == self.files@[self.files.keys()[j]]@.text,
            decreases n - i,
        {
            let file: u32 = *self.files.key_at(i);
            let path = self.files.value_at(i);
            proof {
                assert(self.files@.contains_key(self.files.keys()[i as int]));
                assert(self@.files.contains_key(file));
            }
            match other.files.get(&file) {
                Some(other_path) => {
                    if !(path.text == other_path.text) {
                        return false;
                    }
                },
                None => {
                    proof {
                        assert(!other@.files.dom().contains(file));
                    }
                    return false;
                },
            }
            i = i + 1;
        }
        let mut k: usize = 0;
        while k < m
            invariant
                k <= m,
                m == other.files.keys().len(),
                listed(other.files),
                forall|j: int| 0 <= j < k ==> self.files@.contains_key(#[trigger] other.files.keys()[j]),
            decreases m - k,
        {
            let file: u32 = *other.files.key_at(k);
            proof {
                assert(other.files@.contains_key(other.files.keys()[k as int]));
                assert(other@.files.dom().contains(file));
            }
            if !self.files.contains_key(&file) {
                return false;
            }
            k = k + 1;
        }
        proof {
            assert(self@.files.dom() =~= other@.files.dom()) by {
                assert forall|f: u32| self@.files.dom().contains(f) <==> other@.files.dom().contains(f) by {
                    if self.files@.contains_key(f) {
                        let j = self.files.keys().index_of(f);
                        assert(self.files.keys()[j] == f);
                    }
                    if other.files@.contains_key(f) {
                        let j = other.files.keys().index_of(f);
                        assert(other.files.keys()[j] == f);
                    }
                }
            }
            assert forall|f: u32| #[trigger] self@.files.contains_key(f) implies self@.files[f].text == other@.files[f].text by {
                let j = self.files.keys().index_of(f);
                assert(self.files.keys()[j] == f);
            }
        }
        true
    }
}

/// A crate as the database reports it.
#[derive(Debug)]
pub struct CrateData {
    pub id: u32,
    pub root_file: u32,
    /// The crates it depends on, in the order of its dependencies.
    pub dependencies: Vec<u32>,
    /// The root files of the crates that depend on it, directly or not, its own among them.
    pub transitive_rev_deps: Vec<u32>,
}

#[verifier::ext_equal]
pub struct CrateView {
    pub id: u32,
    pub root_file: u32,
    pub dependencies: Seq<u32>,
    pub transitive_rev_deps: Seq<u32>,
}

impl View for CrateData {
    type V = CrateView;

    open spec fn view(&self) -> CrateView {
        CrateView {
            id: self.id,
            root_file: self.root_file,
            dependencies: self.dependencies@,
            transitive_rev_deps: self.transitive_rev_deps@,
        }
    }
}

pub open spec fn crate_views(crates: Seq<CrateData>) -> Seq<CrateView> {
    crates.map_values(|c: CrateData| c@)
}

/// How long a value is expected to stay.
#[derive(Clone, Copy, Debug, PartialEq, Eq, Structural)]
pub enum Durability {
    Low,
    Medium,
}

/// One source root that is to be set, and the files that move to it.
#[derive(Debug)]
pub struct RootUpdate {
    pub root: u32,
    pub moved_files: Vec<u32>,
    pub durability: Durability,
}

/// What a new list of source roots changes.
#[derive(Debug)]
pub struct RootChange {
    pub updates: Vec<RootUpdate>,
    pub local_roots_changed: bool,
    pub library_roots_changed: bool,
}

pub struct AnalysisInputs {
    pub texts: OrderedMap<u32, String>,
    pub file_roots: OrderedMap<u32, u32>,
    pub roots: Vec<SourceRoot>,
    pub local_roots: FxHashSet<u32>,
    pub library_roots: FxHashSet<u32>,
}

#[verifier::ext_equal]
pub struct InputsView {
    pub texts: Map<u32, Seq<char>>,
    pub file_roots: Map<u32, u32>,
    pub roots: Seq<RootView>,
    pub local_roots: Set<u32>,
    pub library_roots: Set<u32>,
}

pub open spec fn root_views(roots: Seq<SourceRoot>) -> Seq<RootView> {
    roots.map_values(|r: SourceRoot| r@)
}

impl View for AnalysisInputs {
    type V = InputsView;

    open spec fn view(&self) -> InputsView {
        InputsView {
            texts: self.texts@.map_values(|t: String| t@),
            file_roots: self.file_roots@,
            roots: root_views(self.roots@),
            local_roots: self.local_roots@,
            library_roots: self.library_roots@,
        }
    }
}

/// The root at `i` differs from the one that is set there.
pub open spec fn root_changed(old: Seq<RootView>, new: Seq<RootView>, i: int) -> bool {
    !(i < old.len() && same_root(old[i], new[i]))
}

/// The files that the root at `i` holds and the one that was set there did not.
pub open spec fn moved(old: Seq<RootView>, new: Seq<RootView>, i: int) -> Set<u32> {
    Set::new(|f: u32| new[i].files.contains_key(f) && !(i < old.len() && old[i].files.contains_key(f)))
}

/// Which root each file is in, once the first `n` roots are set.
pub open spec fn assigned(file_roots: Map<u32, u32>, old: Seq<RootView>, new: Seq<RootView>, n: int) -> Map<u32, u32>
    decreases n,
{
    if n <= 0 {
        file_roots
    } else {
        let before = assigned(file_roots, old, new, n - 1);
        if root_changed(old, new, n - 1) {
            before.union_prefer_right(Map::new(|f: u32| moved(old, new, n - 1).contains(f), |f: u32| (n - 1) as u32))
        } else {
            before
        }
    }
}

/// The list of roots once the new ones are set: a root that did not change stays, and roots beyond
/// the new list stay too.
pub open spec fn merged(old: Seq<RootView>, new: Seq<RootView>) -> Seq<RootView> {
    Seq::new(
        if old.len() > new.len() {
            old.len()
        } else {
            new.len()
        },
        |i: int| if i < new.len() && root_changed(old, new, i) {
            new[i]
        } else {
            old[i]
        },
    )
}

pub open spec fn kind_roots(roots: Seq<RootView>, is_library: bool) -> Set<u32> {
    Set::new(|i: u32| i < roots.len() && roots[i as int].is_library == is_library)
}

impl InputsView {
    /// Files are in roots that are there, and every file of a root has a text and is in some root.
    pub open spec fn readable(self) -> bool {
        &&& forall|f: u32| #[trigger] self.file_roots.contains_key(f) ==> self.file_roots[f] < self.roots.len()
        &&& forall|i: int, f: u32|
            0 <= i < self.roots.len() && #[trigger] self.roots[i].files.contains_key(f) ==> self.texts.contains_key(f)
                && self.file_roots.contains_key(f)
        &&& forall|i: int| 0 <= i < self.roots.len() ==> (#[trigger] self.roots[i]).files.dom().finite()
    }

    pub open spec fn with_roots(self, new: Seq<RootView>) -> InputsView {
        InputsView {
            file_roots: assigned(self.file_roots, self.roots, new, new.len() as int),
            roots: merged(self.roots, new),
            local_roots: kind_roots(new, false),
            library_roots: kind_roots(new, true),
            ..self
        }
    }

    /// A file's text is set. The database cannot drop a file: one without a text has an empty one.
    pub open spec fn with_text(self, file: u32, text: Option<Seq<char>>) -> InputsView {
        InputsView {
            texts: self.texts.insert(
                file,
                match text {
                    Some(text) => text,
                    None => Seq::empty(),
                },
            ),
            ..self
        }
    }

    /// A list of changes, one after another.
    pub open spec fn with_texts(self, changes: Seq<(u32, Option<Seq<char>>)>) -> InputsView
        decreases changes.len(),
    {
        if changes.len() == 0 {
            self
        } else {
            self.with_texts(changes.drop_last()).with_text(changes.last().0, changes.last().1)
        }
    }
}

/// What is to be told to the database about the root at `i`.
pub open spec fn is_root_update(u: RootUpdate, old: Seq<RootView>, new: Seq<RootView>) -> bool {
    &&& u.root < new.len()
    &&& root_changed(old, new, u.root as int)
    &&& u.moved_files@.to_set() == moved(old, new, u.root as int)
    &&& u.durability == (if new[u.root as int].is_library { Durability::Medium } else { Durability::Low })
}

impl RootChange {
    /// The change tells the database all that a new list of roots changes, and nothing else.
    pub open spec fn describes(self, before: InputsView, new: Seq<RootView>) -> bool {
        &&& forall|i: int| 0 <= i < self.updates@.len() ==> is_root_update(#[trigger] self.updates@[i], before.roots, new)
        &&& forall|i: int, j: int|
            0 <= i < j < self.updates@.len() ==> (#[trigger] self.updates@[i]).root < (#[trigger] self.updates@[j]).root
        &&& forall|k: int|
            0 <= k < new.len() && #[trigger] root_changed(before.roots, new, k) ==> exists|i: int|
                0 <= i < self.updates@.len() && (#[trigger] self.updates@[i]).root == k
        &&& self.local_roots_changed == (before.local_roots != kind_roots(new, false))
        &&& self.library_roots_changed == (before.library_roots != kind_roots(new, true))
    }
}

impl AnalysisInputs {
    pub fn new() -> (r: Self)
        ensures
            r@ == (InputsView {
                texts: Map::empty(),
                file_roots: Map::empty(),
                roots: Seq::empty(),
                local_roots: Set::empty(),
                library_roots: Set::empty(),
            }),
    {
        let r = AnalysisInputs {
            texts: OrderedMap::new(),
            file_roots: OrderedMap::new(),
            roots: Vec::new(),
            local_roots: fx_set(),
            library_roots: fx_set(),
        };
        proof {
            assert(r@.texts =~= Map::empty());
            assert(r@.roots =~= Seq::empty());
        }
        r
    }

    /// Sets a file's text, an empty one where it has none.
    pub fn set_text(&mut self, file: u32, text: Option<String>)
        ensures
            final(self)@ == old(self)@.with_text(file, text.deep_view()),
    {
        let ghost model = text.deep_view();
        match text {
            Some(text) => {
                self.texts.insert(file, text);
            },
            None => {
                self.texts.insert(file, String::new());
            },
        }
        proof {
            let t = old(self)@.with_text(file, model);
            assert(self@.texts =~= t.texts);
            assert(self@.roots =~= t.roots);
            assert(self@ =~= t);
        }
    }

    /// Makes a list of changes, one after another.
    pub fn set_texts(&mut self, changes: &Vec<(u32, Option<String>)>)
        ensures
            final(self)@ == old(self)@.with_texts(changes.deep_view()),
    {
        let ghost all = changes.deep_view();
        let mut i: usize = 0;
        proof {
            assert(all.take(0) =~= Seq::empty());
        }
        while i < changes.len()
            invariant
                i <= changes.len(),
                all == changes.deep_view(),
                self@ == old(self)@.with_texts(all.take(i as int)),
            decreases changes.len() - i,
        {
            let text = match &changes[i].1 {
                Some(text) => Some(text.clone()),
                None => None,
            };
            proof {
                assert(all.take(i + 1).drop_last() =~= all.take(i as int));
                assert(all.take(i + 1).last() == (changes@[i as int].0, changes@[i as int].1.deep_view()));
                assert(text.deep_view() == changes@[i as int].1.deep_view());
            }
            self.set_text(changes[i].0, text);
            i = i + 1;
        }
        proof {
            assert(all.take(i as int) =~= all);
        }
    }

    /// Puts the files that moved to the root at `i` there, and lists them.
    fn move_files(&mut self, i: usize, new: &SourceRoot) -> (r: Vec<u32>)
        requires
            i <= u32::MAX,
        ensures
            ({
                let old_roots = old(self)@.roots;
                let new_files = Set::new(
                    |f: u32| new@.files.contains_key(f) && !(i < old_roots.len() && old_roots[i as int].files.contains_key(f)),
                );
                &&& r@.to_set() == new_files
                &&& final(self)@ == (InputsView {
                    file_roots: old(self)@.file_roots.union_prefer_right(
                        Map::new(|f: u32| new_files.contains(f), |f: u32| i as u32),
                    ),
                    ..old(self)@
                })
            }),
    {
        let n = new.files.len();
        let mut r: Vec<u32> = Vec::new();
        let mut k: usize = 0;
        let ghost old_roots = self@.roots;
        let ghost start = self@;
        let ghost new_files = Set::new(
            |f: u32| new@.files.contains_key(f) && !(i < old_roots.len() && old_roots[i as int].files.contains_key(f)),
        );
        proof {
            assert(r@.to_set() =~= Set::empty());
        }
        while k < n
            invariant
                k <= n,
                n == new.files.keys().len(),
                listed(new.files),
                i <= u32::MAX,
                old_roots == start.roots,
                self@.roots == old_roots,
                self@.texts == start.texts,
                self@.local_roots == start.local_roots,
                self@.library_roots == start.library_roots,
                new_files == Set::new(
                    |f: u32| new@.files.contains_key(f) && !(i < old_roots.len() && old_roots[i as int].files.contains_key(f)),
                ),
                forall|f: u32| #[trigger] r@.contains(f) <==> new_files.contains(f) && new.files.keys().take(k as int).contains(f),
                forall|f: u32|
                    #[trigger] self@.file_roots.contains_key(f) <==> start.file_roots.contains_key(f) || r@.contains(f),
                forall|f: u32|
                    #[trigger] self@.file_roots.contains_key(f) ==> self@.file_roots[f] == (if r@.contains(f) {
                        i as u32
                    } else {
                        start.file_roots[f]
                    }),
            decreases n - k,
        {
            let file: u32 = *new.files.key_at(k);
            let ghost before = r@;
            let known = if i < self.roots.len() {
                self.roots[i].files.contains_key(&file)
            } else {
                false
            };
            proof {
                assert(new.files@.contains_key(new.files.keys()[k as int]));
                assert(new@.files.contains_key(file));
                if i < old_roots.len() {
                    assert(old_roots[i as int] == self.roots@[i as int]@);
                }
                assert(known == (i < old_roots.len() && old_roots[i as int].files.contains_key(file)));
                assert(new.files.keys().take(k + 1) =~= new.files.keys().take(k as int).push(file));
                assert(new.files.keys().take(k + 1)[k as int] == file);
                assert forall|f: u32| new.files.keys().take(k + 1).contains(f) <==> f == file || new.files.keys().take(k as int).contains(f) by {
                    if new.files.keys().take(k as int).contains(f) {
                        let j = new.files.keys().take(k as int).index_of(f);
                        assert(new.files.keys().take(k + 1)[j] == f);
                    }
                }
            }
            let ghost roots_before = self@.file_roots;
            if !known {
                self.file_roots.insert(file, i as u32);
                r.push(file);
                proof {
                    assert(r@[before.len() as int] == file);
                    assert forall|f: u32| r@.contains(f) <==> f == file || before.contains(f) by {
                        if before.contains(f) {
                            let j = before.index_of(f);
                            assert(r@[j] == f);
                        }
                    }
                    assert(self@.roots =~= old_roots);
                    assert(self@.texts =~= start.texts);
                }
            }
            proof {
                assert(new_files.contains(file) == !known);
                assert forall|f: u32| #[trigger] r@.contains(f) <==> new_files.contains(f) && new.files.keys().take(k + 1).contains(f) by {
                    assert(before.contains(f) <==> new_files.contains(f) && new.files.keys().take(k as int).contains(f));
                }
            }
            k = k + 1;
        }
        proof {
            assert(new.files.keys().take(n as int) =~= new.files.keys());
            assert forall|f: u32| new_files.contains(f) implies r@.contains(f) by {
                assert(new.files@.contains_key(f));
                assert(new.files.keys().contains(f));
            }
            assert(r@.to_set() =~= new_files) by {
                assert forall|f: u32| r@.to_set().contains(f) <==> new_files.contains(f) by {
                    assert(r@.to_set().contains(f) <==> r@.contains(f));
                    assert(r@.contains(f) ==> new_files.contains(f));
                }
            }
            assert(self@.file_roots =~= start.file_roots.union_prefer_right(
                Map::new(|f: u32| new_files.contains(f), |f: u32| i as u32),
            ));
            assert(self@ =~= (InputsView {
                file_roots: start.file_roots.union_prefer_right(
                    Map::new(|f: u32| new_files.contains(f), |f: u32| i as u32),
                ),
                ..start
            }));
        }
        r
    }

    /// Sets a new list of source roots. Only the roots that differ from those in place are set,
    /// and only the files that are new in such a root move to it.
    pub fn apply_source_roots(&mut self, roots: Vec<SourceRoot>) -> (r: RootChange)
        requires
            roots.len() <= u32::MAX,
        ensures
            final(self)@ == old(self)@.with_roots(root_views(roots@)),
            r.describes(old(self)@, root_views(roots@)),
    {
        let ghost new = root_views(roots@);
        let ghost start = self@;
        let mut local_roots = fx_set();
        let mut library_roots = fx_set();
        let mut i: usize = 0;
        while i < roots.len()
            invariant
                i <= roots.len(),
                roots.len() <= u32::MAX,
                new == root_views(roots@),
                local_roots@ == Set::new(|k: u32| k < i && !new[k as int].is_library),
                library_roots@ == Set::new(|k: u32| k < i && new[k as int].is_library),
            decreases roots.len() - i,
        {
            proof {
                assert(new[i as int] == roots@[i as int]@);
            }
            if roots[i].is_library {
                fx_insert(&mut library_roots, i as u32);
            } else {
                fx_insert(&mut local_roots, i as u32);
            }
            i = i + 1;
            proof {
                assert(local_roots@ =~= Set::new(|k: u32| k < i && !new[k as int].is_library));
                assert(library_roots@ =~= Set::new(|k: u32| k < i && new[k as int].is_library));
            }
        }
        proof {
            assert(local_roots@ =~= kind_roots(new, false));
            assert(library_roots@ =~= kind_roots(new, true));
        }
        let mut updates: Vec<RootUpdate> = Vec::new();
        let total = roots.len();
        let mut rest = reversed_roots(roots);
        let mut n: usize = 0;
        let ghost mut shown: Seq<RootView> = start.roots;
        while rest.len() > 0
            invariant
                n + rest.len() == total,
                total == new.len(),
                total <= u32::MAX,
                forall|k: int| 0 <= k < rest.len() ==> (#[trigger] rest@[k])@ == new[total - 1 - k],
                self@.texts == start.texts,
                self@.local_roots == start.local_roots,
                self@.library_roots == start.library_roots,
                self@.file_roots == assigned(start.file_roots, start.roots, new, n as int),
                self@.roots.len() == (if start.roots.len() > n { start.roots.len() } else { n as nat }),
                forall|k: int|
                    0 <= k < self@.roots.len() ==> #[trigger] self@.roots[k] == (if k < n && root_changed(start.roots, new, k) {
                        new[k]
                    } else {
                        start.roots[k]
                    }),
                forall|k: int| 0 <= k < updates@.len() ==> (#[trigger] updates@[k]).root < n && is_root_update(
                    updates@[k],
                    start.roots,
                    new,
                ),
                forall|j: int, k: int| 0 <= j < k < updates@.len() ==> (#[trigger] updates@[j]).root < (#[trigger] updates@[k]).root,
                forall|k: int|
                    0 <= k < n && #[trigger] root_changed(start.roots, new, k) ==> exists|j: int|
                        0 <= j < updates@.len() && (#[trigger] updates@[j]).root == k,
            decreases rest.len(),
        {
            let ghost before_rest = rest@;
            let ghost before_updates = updates@;
            let ghost here = self@;
            match rest.pop() {
                Some(root) => {
                    proof {
                        assert(before_rest[before_rest.len() - 1] == root);
                        assert(root@ == new[n as int]);
                        assert forall|k: int| 0 <= k < rest.len() implies (#[trigger] rest@[k])@ == new[total - 1 - k] by {
                            assert(rest@[k] == before_rest[k]);
                        }
                        if n < start.roots.len() {
                            assert(here.roots[n as int] == start.roots[n as int]);
                            assert(here.roots[n as int] == self.roots@[n as int]@);
                        }
                    }
                    let unchanged = if n < self.roots.len() {
                        self.roots[n].same(&root)
                    } else {
                        false
                    };
                    proof {
                        assert(unchanged == !root_changed(start.roots, new, n as int));
                    }
                    if !unchanged {
                        let durability = if root.is_library {
                            Durability::Medium
                        } else {
                            Durability::Low
                        };
                        let moved_files = self.move_files(n, &root);
                        proof {
                            assert(moved_files@.to_set() =~= moved(start.roots, new, n as int)) by {
                                assert(here.roots.len() == self@.roots.len());
                            }
                            assert(self@.file_roots =~= assigned(start.file_roots, start.roots, new, n + 1));
                        }
                        let ghost moved_state = self@;
                        if n < self.roots.len() {
                            self.roots.set(n, root);
                            proof {
                                assert(self@.roots =~= moved_state.roots.update(n as int, new[n as int]));
                            }
                        } else {
                            self.roots.push(root);
                            proof {
                                assert(self@.roots =~= moved_state.roots.push(new[n as int]));
                            }
                        }
                        updates.push(RootUpdate { root: n as u32, moved_files, durability });
                        proof {
                            assert(self@.texts =~= start.texts);
                            assert(updates@[before_updates.len() as int].root == n);
                            assert forall|k: int| 0 <= k < updates@.len() implies (#[trigger] updates@[k]).root < n + 1 && is_root_update(
                                updates@[k],
                                start.roots,
                                new,
                            ) by {
                                if k < before_updates.len() {
                                    assert(updates@[k] == before_updates[k]);
                                }
                            }
                            assert forall|j: int, k: int| 0 <= j < k < updates@.len() implies (#[trigger] updates@[j]).root < (
                            #[trigger] updates@[k]).root by {
                                assert(updates@[j] == before_updates[j]);
                                if k < before_updates.len() {
                                    assert(updates@[k] == before_updates[k]);
                                }
                            }
                            assert forall|k: int| 0 <= k < n + 1 && #[trigger] root_changed(start.roots, new, k) implies exists|j: int|
                                0 <= j < updates@.len() && (#[trigger] updates@[j]).root == k by {
                                if k < n {
                                    let j = choose|j: int| 0 <= j < before_updates.len() && (#[trigger] before_updates[j]).root == k;
                                    assert(updates@[j].root == k);
                                }
                            }
                        }
                    }
                },
                None => {},
            }
            n = n + 1;
        }
        proof {
            assert(self@.roots =~= merged(start.roots, new));
        }
        let local_roots_changed = !fx_same(&self.local_roots, &local_roots);
        if local_roots_changed {
            self.local_roots = local_roots;
        }
        let library_roots_changed = !fx_same(&self.library_roots, &library_roots);
        if library_roots_changed {
            self.library_roots = library_roots;
        }
        proof {
            assert(self@ =~= start.with_roots(new));
        }
        RootChange { updates, local_roots_changed, library_roots_changed }
    }
}

fn reversed_roots(roots: Vec<SourceRoot>) -> (r: Vec<SourceRoot>)
    ensures
        r@ == roots@.reverse(),
{
    let mut rest = roots;
    let mut r: Vec<SourceRoot> = Vec::new();
    let ghost all = roots@;
    while rest.len() > 0
        invariant
            rest.len() <= all.len(),
            rest@ == all.take(rest.len() as int),
            r@ == all.reverse().take(all.len() - rest.len()),
        decreases rest.len(),
    {
        let ghost n = rest.len() as int;
        match rest.pop() {
            Some(root) => {
                r.push(root);
                proof {
                    assert(rest@ =~= all.take(n - 1));
                    assert(r@ =~= all.reverse().take(all.len() - n + 1));
                }
            },
            None => {},
        }
    }
    proof {
        assert(all.reverse().take(all.len() as int) =~= all.reverse());
    }
    r
}

/// Setting the same roots again changes nothing.
pub proof fn law_same_roots_change_nothing(s: InputsView, new: Seq<RootView>)
    requires
        new.len() == s.roots.len(),
        forall|i: int| 0 <= i < new.len() ==> same_root(s.roots[i], #[trigger] new[i]),
    ensures
        s.with_roots(new).roots == s.roots,
        s.with_roots(new).file_roots == s.file_roots,
        s.with_roots(new).texts == s.texts,
{
    assert(merged(s.roots, new) =~= s.roots);
    lemma_nothing_assigned(s.file_roots, s.roots, new, new.len() as int);
}

proof fn lemma_nothing_assigned(file_roots: Map<u32, u32>, old: Seq<RootView>, new: Seq<RootView>, n: int)
    requires
        n <= new.len(),
        new.len() == old.len(),
        forall|i: int| 0 <= i < new.len() ==> same_root(old[i], #[trigger] new[i]),
    ensures
        assigned(file_roots, old, new, n) == file_roots,
    decreases n,
{
    if n > 0 {
        lemma_nothing_assigned(file_roots, old, new, n - 1);
        assert(same_root(old[n - 1], new[n - 1]));
    }
}

/// Changes that agree on a file's text give it that text; a file that is not mentioned keeps its own.
pub proof fn lemma_with_texts(s: InputsView, changes: Seq<(u32, Option<Seq<char>>)>, f: u32, text: Option<Seq<char>>)
    requires
        forall|i: int| 0 <= i < changes.len() && (#[trigger] changes[i]).0 == f ==> changes[i].1 == text,
    ensures
        ({
            let r = s.with_texts(changes);
            &&& r.roots == s.roots && r.file_roots == s.file_roots && r.local_roots == s.local_roots && r.library_roots
                == s.library_roots
            &&& s.texts.contains_key(f) ==> r.texts.contains_key(f)
            &&& if exists|i: int| 0 <= i < changes.len() && (#[trigger] changes[i]).0 == f {
                &&& r.texts.contains_key(f)
                &&& r.texts[f] == (match text {
                    Some(text) => text,
                    None => Seq::empty(),
                })
            } else {
                &&& r.texts.contains_key(f) <==> s.texts.contains_key(f)
                &&& r.texts[f] == s.texts[f]
            }
        }),
    decreases changes.len(),
{
    if changes.len() > 0 {
        let rest = changes.drop_last();
        assert forall|i: int| 0 <= i < rest.len() && (#[trigger] rest[i]).0 == f implies rest[i].1 == text by {
            assert(changes[i].0 == f);
        }
        lemma_with_texts(s, rest, f, text);
        if changes.last().0 == f {
            assert(changes[changes.len() - 1].0 == f);
        }
        if exists|i: int| 0 <= i < rest.len() && (#[trigger] rest[i]).0 == f {
            let i = choose|i: int| 0 <= i < rest.len() && (#[trigger] rest[i]).0 == f;
            assert(changes[i].0 == f);
        }
        if exists|i: int| 0 <= i < changes.len() && (#[trigger] changes[i]).0 == f && changes.last().0 != f {
            let i = choose|i: int| 0 <= i < changes.len() && (#[trigger] changes[i]).0 == f;
            assert(rest[i].0 == f);
        }
    }
}

proof fn lemma_assigned_bounds(file_roots: Map<u32, u32>, old: Seq<RootView>, new: Seq<RootView>, n: int)
    requires
        0 <= n <= new.len() <= u32::MAX,
    ensures
        forall|f: u32| file_roots.contains_key(f) ==> #[trigger] assigned(file_roots, old, new, n).contains_key(f),
        forall|f: u32|
            #[trigger] assigned(file_roots, old, new, n).contains_key(f) ==> assigned(file_roots, old, new, n)[f] < new.len() || (
            file_roots.contains_key(f) && assigned(file_roots, old, new, n)[f] == file_roots[f]),
    decreases n,
{
    if n > 0 {
        lemma_assigned_bounds(file_roots, old, new, n - 1);
        let before = assigned(file_roots, old, new, n - 1);
        let r = assigned(file_roots, old, new, n);
        assert forall|f: u32| file_roots.contains_key(f) implies #[trigger] r.contains_key(f) by {
            assert(before.contains_key(f));
        }
        assert forall|f: u32| #[trigger] r.contains_key(f) implies r[f] < new.len() || (file_roots.contains_key(f) && r[f]
            == file_roots[f]) by {
            assert(before.contains_key(f) || !before.contains_key(f));
        }
    }
}

/// Setting roots loses no file, and every root is one that was there or one of the new ones.
pub proof fn lemma_with_roots(s: InputsView, new: Seq<RootView>)
    requires
        s.readable(),
        new.len() <= u32::MAX,
    ensures
        s.with_roots(new).texts == s.texts,
        s.with_roots(new).roots.len() >= s.roots.len(),
        s.with_roots(new).roots.len() >= new.len(),
        forall|f: u32| s.file_roots.contains_key(f) ==> #[trigger] s.with_roots(new).file_roots.contains_key(f),
        forall|f: u32|
            #[trigger] s.with_roots(new).file_roots.contains_key(f) ==> s.with_roots(new).file_roots[f] < s.with_roots(
                new,
            ).roots.len(),
        forall|i: int, f: u32|
            0 <= i < new.len() && #[trigger] new[i].files.contains_key(f) ==> s.with_roots(new).file_roots.contains_key(f),
        forall|i: int|
            0 <= i < s.with_roots(new).roots.len() ==> (i < s.roots.len() && #[trigger] s.with_roots(new).roots[i] == s.roots[i]) || (i
                < new.len() && s.with_roots(new).roots[i] == new[i]),
{
    lemma_assigned_bounds(s.file_roots, s.roots, new, new.len() as int);
    let r = s.with_roots(new);
    assert forall|f: u32| #[trigger] r.file_roots.contains_key(f) implies r.file_roots[f] < r.roots.len() by {
        if s.file_roots.contains_key(f) {
            assert(s.file_roots[f] < s.roots.len());
        }
    }
    assert forall|i: int, f: u32| 0 <= i < new.len() && #[trigger] new[i].files.contains_key(f) implies r.file_roots.contains_key(f) by {
        if i < s.roots.len() && s.roots[i].files.contains_key(f) {
            assert(s.file_roots.contains_key(f));
        } else {
            if i < s.roots.len() && same_root(s.roots[i], new[i]) {
                assert(s.roots[i].files.dom().contains(f));
            }
            lemma_moved_assigned(s.file_roots, s.roots, new, new.len() as int, i, f);
        }
    }
}

proof fn lemma_moved_assigned(file_roots: Map<u32, u32>, old: Seq<RootView>, new: Seq<RootView>, n: int, i: int, f: u32)
    requires
        0 <= i < n <= new.len(),
        root_changed(old, new, i),
        moved(old, new, i).contains(f),
    ensures
        assigned(file_roots, old, new, n).contains_key(f),
    decreases n,
{
    if i < n - 1 {
        lemma_moved_assigned(file_roots, old, new, n - 1, i, f);
    }
}

/// A file is in the last of the changed roots that newly holds it, and otherwise where it was.
pub proof fn law_file_moves_to_last_new_root(s: InputsView, new: Seq<RootView>, f: u32, i: int)
    requires
        0 <= i < new.len() <= u32::MAX,
        root_changed(s.roots, new, i),
        moved(s.roots, new, i).contains(f),
        forall|j: int| i < j < new.len() && root_changed(s.roots, new, j) ==> !(#[trigger] moved(s.roots, new, j)).contains(f),
    ensures
        s.with_roots(new).file_roots.contains_key(f),
        s.with_roots(new).file_roots[f] == i,
{
    lemma_assigned(s.file_roots, s.roots, new, new.len() as int, f, i);
}

proof fn lemma_assigned(file_roots: Map<u32, u32>, old: Seq<RootView>, new: Seq<RootView>, n: int, f: u32, i: int)
    requires
        0 <= i < n <= new.len() <= u32::MAX,
        root_changed(old, new, i),
        moved(old, new, i).contains(f),
        forall|j: int| i < j < new.len() && root_changed(old, new, j) ==> !(#[trigger] moved(old, new, j)).contains(f),
    ensures
        assigned(file_roots, old, new, n).contains_key(f),
        assigned(file_roots, old, new, n)[f] == i,
    decreases n,
{
    if n - 1 > i {
        lemma_assigned(file_roots, old, new, n - 1, f, i);
        assert(root_changed(old, new, n - 1) ==> !moved(old, new, n - 1).contains(f));
    }
}

/// The database is told of a source root exactly where it is new, or is of another kind, or holds other
/// files than before, and the roots come in ascending order. What is told of a root are the files that
/// it holds now and did not before; those of libraries change less often.
pub proof fn law_changed_roots_are_told(c: RootChange, before: InputsView, new: Seq<RootView>, k: int)
    requires
        c.describes(before, new),
        0 <= k < new.len(),
    ensures
        (exists|i: int| 0 <= i < c.updates@.len() && (#[trigger] c.updates@[i]).root == k) <==> k >= before.roots.len() || !same_root(
            before.roots[k],
            new[k],
        ),
        forall|i: int|
            0 <= i < c.updates@.len() && (#[trigger] c.updates@[i]).root == k ==> (c.updates@[i].durability == Durability::Medium
                <==> new[k].is_library) && (c.updates@[i].durability == Durability::Low <==> !new[k].is_library),
        forall|i: int, f: u32|
            0 <= i < c.updates@.len() && (#[trigger] c.updates@[i]).root == k ==> (#[trigger] c.updates@[i].moved_files@.contains(f)
                <==> new[k].files.contains_key(f) && (k >= before.roots.len() || !before.roots[k].files.contains_key(f))),
        forall|i: int, j: int|
            0 <= i < j < c.updates@.len() ==> (#[trigger] c.updates@[i]).root < (#[trigger] c.updates@[j]).root,
{
    assert forall|i: int, f: u32| 0 <= i < c.updates@.len() && (#[trigger] c.updates@[i]).root == k implies (
    #[trigger] c.updates@[i].moved_files@.contains(f) <==> new[k].files.contains_key(f) && (k >= before.roots.len()
        || !before.roots[k].files.contains_key(f))) by {
        let u = c.updates@[i];
        assert(is_root_update(u, before.roots, new));
        assert(u.moved_files@.to_set().contains(f) <==> u.moved_files@.contains(f));
        assert(moved(before.roots, new, k).contains(f) <==> u.moved_files@.to_set().contains(f));
    }
    if root_changed(before.roots, new, k) {
        assert(exists|i: int| 0 <= i < c.updates@.len() && (#[trigger] c.updates@[i]).root == k);
    }
    assert forall|i: int| 0 <= i < c.updates@.len() && (#[trigger] c.updates@[i]).root == k implies root_changed(before.roots, new, k) by {
        assert(is_root_update(c.updates@[i], before.roots, new));
    }
}

} // verus!
