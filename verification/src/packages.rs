//! Packages as instances: crates that agree in everything that matters are one.
use crate::ordered::{lemma_sorted_keys, listed, sorted_keys, OrderedKey, OrderedMap, Relation};
use crate::tokens::{compare, lemma_tokens_injective, write_field, Tokens};
use vstd::prelude::*;

verus! {

/// What tells one instance of a package from another.
#[derive(Debug)]
pub struct PackageInstanceKey {
    pub root_file: String,
    pub edition: String,
    pub origin: String,
    pub display_name: String,
    pub version: String,
    pub cfg_options: String,
    pub env: String,
    pub is_proc_macro: bool,
    pub proc_macro_cwd: String,
}

#[verifier::ext_equal]
pub struct PackageKeyView {
    pub root_file: Seq<char>,
    pub edition: Seq<char>,
    pub origin: Seq<char>,
    pub display_name: Seq<char>,
    pub version: Seq<char>,
    pub cfg_options: Seq<char>,
    pub env: Seq<char>,
    pub is_proc_macro: bool,
    pub proc_macro_cwd: Seq<char>,
}

type PackageKeyFields = (String, (String, (String, (String, (String, (String, (String, (bool, String))))))));

impl DeepView for PackageInstanceKey {
    type V = PackageKeyView;

    open spec fn deep_view(&self) -> PackageKeyView {
        PackageKeyView {
            root_file: self.root_file@,
            edition: self.edition@,
            origin: self.origin@,
            display_name: self.display_name@,
            version: self.version@,
            cfg_options: self.cfg_options@,
            env: self.env@,
            is_proc_macro: self.is_proc_macro,
            proc_macro_cwd: self.proc_macro_cwd@,
        }
    }
}

impl View for PackageInstanceKey {
    type V = PackageKeyView;

    open spec fn view(&self) -> PackageKeyView {
        self.deep_view()
    }
}

impl PackageKeyView {
    pub open spec fn fields(self) -> (Seq<char>, (Seq<char>, (Seq<char>, (Seq<char>, (Seq<char>, (Seq<char>, (Seq<char>, (bool, Seq<char>)))))))) {
        (self.root_file, (self.edition, (self.origin, (self.display_name, (self.version, (self.cfg_options, (self.env, (self.is_proc_macro, self.proc_macro_cwd))))))))
    }
}

impl Tokens for PackageInstanceKey {
    open spec fn tokens(model: PackageKeyView) -> Seq<u32> {
        PackageKeyFields::tokens(model.fields())
    }

    proof fn split(a: PackageKeyView, b: PackageKeyView, x: Seq<u32>, y: Seq<u32>) {
        PackageKeyFields::split(a.fields(), b.fields(), x, y);
    }

    fn write(&self, out: &mut Vec<u32>) {
        let ghost r8 = <String as Tokens>::tokens(self.proc_macro_cwd.deep_view());
        let ghost r7 = <bool as Tokens>::tokens(self.is_proc_macro.deep_view()) + r8;
        let ghost r6 = <String as Tokens>::tokens(self.env.deep_view()) + r7;
        let ghost r5 = <String as Tokens>::tokens(self.cfg_options.deep_view()) + r6;
        let ghost r4 = <String as Tokens>::tokens(self.version.deep_view()) + r5;
        let ghost r3 = <String as Tokens>::tokens(self.display_name.deep_view()) + r4;
        let ghost r2 = <String as Tokens>::tokens(self.origin.deep_view()) + r3;
        let ghost r1 = <String as Tokens>::tokens(self.edition.deep_view()) + r2;
        write_field(&self.root_file, out, Ghost(r1));
        write_field(&self.edition, out, Ghost(r2));
        write_field(&self.origin, out, Ghost(r3));
        write_field(&self.display_name, out, Ghost(r4));
        write_field(&self.version, out, Ghost(r5));
        write_field(&self.cfg_options, out, Ghost(r6));
        write_field(&self.env, out, Ghost(r7));
        write_field(&self.is_proc_macro, out, Ghost(r8));
        self.proc_macro_cwd.write(out);
    }

    fn duplicate(&self) -> (r: Self) {
        PackageInstanceKey {
            root_file: self.root_file.clone(),
            edition: self.edition.clone(),
            origin: self.origin.clone(),
            display_name: self.display_name.clone(),
            version: self.version.clone(),
            cfg_options: self.cfg_options.clone(),
            env: self.env.clone(),
            is_proc_macro: self.is_proc_macro,
            proc_macro_cwd: self.proc_macro_cwd.clone(),
        }
    }
}

impl OrderedKey for PackageInstanceKey {
    open spec fn rank(model: PackageKeyView) -> Seq<u32> {
        <PackageInstanceKey as Tokens>::tokens(model)
    }

    proof fn rank_injective(a: PackageKeyView, b: PackageKeyView) {
        lemma_tokens_injective::<PackageInstanceKey>(a, b);
    }

    fn relation(&self, other: &Self) -> (r: Relation) {
        compare(self, other)
    }
}

/// An instance of a package, and the crates that are it.
#[derive(Debug)]
pub struct PackageInstance {
    key: PackageInstanceKey,
    crates: Vec<u32>,
}

#[verifier::ext_equal]
pub struct PackageView {
    pub key: PackageKeyView,
    pub crates: Seq<u32>,
}

impl View for PackageInstance {
    type V = PackageView;

    closed spec fn view(&self) -> PackageView {
        PackageView { key: self.key@, crates: self.crates@ }
    }
}

pub open spec fn with_crate(crates: Seq<u32>, krate: u32) -> Seq<u32> {
    if crates.contains(krate) {
        crates
    } else {
        crates.push(krate)
    }
}

impl PackageInstance {
    fn new(key: PackageInstanceKey) -> (r: Self)
        ensures
            r@ == (PackageView { key: key@, crates: Seq::empty() }),
    {
        PackageInstance { key, crates: Vec::new() }
    }

    fn contains(&self, krate: u32) -> (r: bool)
        ensures
            r == self@.crates.contains(krate),
    {
        let mut i: usize = 0;
        while i < self.crates.len()
            invariant
                i <= self.crates.len(),
                forall|j: int| 0 <= j < i ==> self.crates@[j] != krate,
            decreases self.crates.len() - i,
        {
            if self.crates[i] == krate {
                proof {
                    assert(self.crates@[i as int] == krate);
                }
                return true;
            }
            i = i + 1;
        }
        false
    }

    fn push_crate(&mut self, krate: u32)
        ensures
            final(self)@ == (PackageView { crates: with_crate(old(self)@.crates, krate), ..old(self)@ }),
    {
        if !self.contains(krate) {
            self.crates.push(krate);
        }
    }

    pub fn key(&self) -> (r: &PackageInstanceKey)
        ensures
            r@ == self@.key,
    {
        &self.key
    }

    pub fn crates(&self) -> (r: &Vec<u32>)
        ensures
            r@ == self@.crates,
    {
        &self.crates
    }
}

/// The packages of a world: the key of every crate, and the instances.
pub struct PackageInstances {
    keys: OrderedMap<u32, PackageInstanceKey>,
    packages: OrderedMap<PackageInstanceKey, PackageInstance>,
}

/// Why a crate cannot be shared.
#[derive(Clone, Copy, Debug, PartialEq, Eq, Structural)]
pub enum NotInterned {
    /// There is no instance of its package.
    Package,
    /// The instance of its package is not this crate.
    Crate,
}

#[verifier::ext_equal]
pub struct PackagesView {
    pub keys: Map<u32, PackageKeyView>,
    pub packages: Map<PackageKeyView, PackageView>,
}

impl View for PackageInstances {
    type V = PackagesView;

    closed spec fn view(&self) -> PackagesView {
        PackagesView {
            keys: self.keys@.map_values(|k: PackageInstanceKey| k@),
            packages: self.packages@.map_values(|p: PackageInstance| p@),
        }
    }
}

/// The packages with one more crate.
pub open spec fn with_instance(p: PackagesView, key: PackageKeyView, krate: u32) -> PackagesView {
    let crates = if p.packages.contains_key(key) {
        p.packages[key].crates
    } else {
        Seq::empty()
    };
    PackagesView {
        keys: p.keys.insert(krate, key),
        packages: p.packages.insert(key, PackageView { key, crates: with_crate(crates, krate) }),
    }
}

/// The packages of the first `n` crates.
pub open spec fn instances_to(list: Seq<(PackageKeyView, u32)>, n: int) -> PackagesView
    decreases n,
{
    if n <= 0 {
        PackagesView { keys: Map::empty(), packages: Map::empty() }
    } else {
        with_instance(instances_to(list, n - 1), list[n - 1].0, list[n - 1].1)
    }
}

pub open spec fn crate_key_views(list: Seq<(PackageInstanceKey, u32)>) -> Seq<(PackageKeyView, u32)> {
    list.map_values(|c: (PackageInstanceKey, u32)| (c.0@, c.1))
}

/// A crate as an instance of its package.
pub open spec fn interned(p: PackagesView, krate: u32) -> Result<u32, NotInterned> {
    if !p.keys.contains_key(krate) || !p.packages.contains_key(p.keys[krate]) {
        Err(NotInterned::Package)
    } else if !p.packages[p.keys[krate]].crates.contains(krate) {
        Err(NotInterned::Crate)
    } else {
        Ok(krate)
    }
}

/// Why the first of the first `n` crates that is not interned is not.
pub open spec fn refused(p: PackagesView, crates: Seq<u32>, n: int) -> Option<NotInterned>
    decreases n,
{
    if n <= 0 {
        None
    } else {
        let before = refused(p, crates, n - 1);
        if before is Some {
            before
        } else {
            match interned(p, crates[n - 1]) {
                Ok(_) => None,
                Err(error) => Some(error),
            }
        }
    }
}

impl PackageInstances {
    /// The instances of all crates, each given with its key.
    pub fn refresh_package_instances(crates: Vec<(PackageInstanceKey, u32)>) -> (r: Self)
        ensures
            r@ == instances_to(crate_key_views(crates@), crates@.len() as int),
    {
        let ghost whole = crates@;
        let ghost views = crate_key_views(whole);
        let mut crates = crates;
        let mut r = PackageInstances { keys: OrderedMap::new(), packages: OrderedMap::new() };
        let ghost mut i: int = 0;
        proof {
            assert(whole.skip(0) =~= whole);
            assert(r@ =~= instances_to(views, 0));
        }
        while crates.len() > 0
            invariant
                0 <= i <= whole.len(),
                crates@ == whole.skip(i),
                views == crate_key_views(whole),
                r@ == instances_to(views, i),
            decreases crates.len(),
        {
            let ghost before = r@;
            let (key, krate) = crates.remove(0);
            proof {
                assert(views[i] == (key@, krate));
                assert(crates@ =~= whole.skip(i + 1));
                lemma_keyed(views, i, key@);
            }
            let mut package = match r.packages.remove(&key) {
                Some(package) => package,
                None => PackageInstance::new(key.duplicate()),
            };
            package.push_crate(krate);
            let ghost one = package@;
            r.keys.insert(krate, key.duplicate());
            r.packages.insert(key, package);
            proof {
                let after = with_instance(before, views[i].0, views[i].1);
                assert(r@.keys =~= after.keys);
                assert(r@.packages =~= after.packages);
                i = i + 1;
            }
        }
        proof {
            assert(i == whole.len());
        }
        r
    }

    /// The instances, in the order of their keys.
    pub fn package_instances(&self) -> (r: Vec<&PackageInstance>)
        ensures
            r@.len() == sorted_keys::<PackageInstanceKey>(self@.packages.dom()).len(),
            forall|i: int|
                0 <= i < r@.len() ==> (#[trigger] r@[i])@ == self@.packages[sorted_keys::<PackageInstanceKey>(
                    self@.packages.dom(),
                )[i]],
    {
        let n = self.packages.len();
        let ghost keys = sorted_keys::<PackageInstanceKey>(self@.packages.dom());
        let mut r: Vec<&PackageInstance> = Vec::new();
        let mut i: usize = 0;
        proof {
            lemma_sorted_keys(self.packages);
            assert(self@.packages.dom() =~= self.packages@.dom());
        }
        while i < n
            invariant
                i <= n,
                n == self.packages.keys().len(),
                listed(self.packages),
                keys == self.packages.keys(),
                r@.len() == i,
                forall|j: int| 0 <= j < i ==> (#[trigger] r@[j])@ == self@.packages[keys[j]],
            decreases n - i,
        {
            let package = self.packages.value_at(i);
            proof {
                assert(self.packages@.contains_key(keys[i as int]));
            }
            r.push(package);
            i = i + 1;
        }
        r
    }

    /// A crate as an instance of its package.
    pub fn interned_crate(&self, krate: u32) -> (r: Result<u32, NotInterned>)
        ensures
            r == interned(self@, krate),
    {
        let key = match self.keys.get(&krate) {
            None => {
                return Err(NotInterned::Package);
            },
            Some(key) => key,
        };
        match self.packages.get(key) {
            None => Err(NotInterned::Package),
            Some(package) => if package.contains(krate) {
                Ok(krate)
            } else {
                Err(NotInterned::Crate)
            },
        }
    }

    /// Some crates, each as an instance of its package.
    pub fn interned_crates(&self, crates: &Vec<u32>) -> (r: Result<Vec<u32>, NotInterned>)
        ensures
            match refused(self@, crates@, crates@.len() as int) {
                None => r is Ok && r->Ok_0@ == crates@,
                Some(error) => r == Err::<Vec<u32>, NotInterned>(error),
            },
    {
        let mut r: Vec<u32> = Vec::new();
        let mut i: usize = 0;
        while i < crates.len()
            invariant
                i <= crates.len(),
                refused(self@, crates@, i as int) is None,
                r@ == crates@.take(i as int),
            decreases crates.len() - i,
        {
            match self.interned_crate(crates[i]) {
                Ok(krate) => {
                    r.push(krate);
                },
                Err(error) => {
                    proof {
                        lemma_refused(self@, crates@, i + 1, crates@.len() as int);
                    }
                    return Err(error);
                },
            }
            i = i + 1;
            proof {
                assert(r@ =~= crates@.take(i as int));
            }
        }
        proof {
            assert(crates@.take(i as int) =~= crates@);
        }
        Ok(r)
    }
}

proof fn lemma_refused(p: PackagesView, crates: Seq<u32>, m: int, n: int)
    requires
        m <= n,
        refused(p, crates, m) is Some,
    ensures
        refused(p, crates, n) == refused(p, crates, m),
    decreases n - m,
{
    if m < n {
        lemma_refused(p, crates, m, n - 1);
    }
}

proof fn lemma_keyed(list: Seq<(PackageKeyView, u32)>, n: int, key: PackageKeyView)
    requires
        0 <= n <= list.len(),
    ensures
        instances_to(list, n).packages.contains_key(key) ==> instances_to(list, n).packages[key].key == key,
    decreases n,
{
    if n > 0 {
        lemma_keyed(list, n - 1, key);
    }
}

/// Every crate is interned in the instance of its package.
pub proof fn law_crates_are_interned(list: Seq<(PackageKeyView, u32)>, n: int, i: int)
    requires
        0 <= i < n <= list.len(),
    ensures
        interned(instances_to(list, n), list[i].1) == Ok::<u32, NotInterned>(list[i].1),
    decreases n,
{
    let before = instances_to(list, n - 1);
    let after = instances_to(list, n);
    let (key, krate) = list[n - 1];
    let crates = if before.packages.contains_key(key) {
        before.packages[key].crates
    } else {
        Seq::empty()
    };
    if list[i].1 == krate {
        if !crates.contains(krate) {
            assert(after.packages[key].crates[crates.len() as int] == krate);
        }
    } else {
        law_crates_are_interned(list, n - 1, i);
        if before.keys[list[i].1] == key && !crates.contains(krate) {
            let k = crates.index_of(list[i].1);
            assert(after.packages[key].crates[k] == list[i].1);
        }
    }
}

/// There is an instance of a package for each key that a crate was given with, and none besides. It
/// holds the crates that were given with the key, each once.
pub proof fn law_instances_hold_their_crates(list: Seq<(PackageKeyView, u32)>, n: int, key: PackageKeyView, krate: u32)
    requires
        0 <= n <= list.len(),
    ensures
        instances_to(list, n).packages.contains_key(key) <==> exists|i: int| 0 <= i < n && (#[trigger] list[i]).0 == key,
        instances_to(list, n).packages.contains_key(key) ==> {
            &&& instances_to(list, n).packages[key].key == key
            &&& instances_to(list, n).packages[key].crates.contains(krate) <==> exists|i: int|
                0 <= i < n && (#[trigger] list[i]) == (key, krate)
            &&& instances_to(list, n).packages[key].crates.no_duplicates()
        },
    decreases n,
{
    if n > 0 {
        law_instances_hold_their_crates(list, n - 1, key, krate);
        let before = instances_to(list, n - 1);
        let after = instances_to(list, n);
        let (last, given) = list[n - 1];
        let crates = if before.packages.contains_key(last) {
            before.packages[last].crates
        } else {
            Seq::empty()
        };
        assert(after == with_instance(before, last, given));
        assert(crates.push(given)[crates.len() as int] == given);
        assert forall|c: u32| crates.push(given).contains(c) <==> crates.contains(c) || c == given by {
            if crates.contains(c) {
                let at = crates.index_of(c);
                assert(crates.push(given)[at] == c);
            }
        }
        if last == key {
            assert(list[n - 1].0 == key);
            assert(krate == given ==> list[n - 1] == (key, krate));
            if before.packages.contains_key(key) {
                assert(after.packages[key].crates.contains(krate) <==> before.packages[key].crates.contains(krate) || krate == given);
            } else {
                assert forall|i: int| 0 <= i < n - 1 implies (#[trigger] list[i]) != (key, krate) by {
                    assert(list[i].0 != key);
                }
            }
        }
    }
}

/// A crate that is given more than once belongs to the package that it was given with last.
pub proof fn law_last_key_counts(list: Seq<(PackageKeyView, u32)>, n: int, krate: u32)
    requires
        0 <= n <= list.len(),
    ensures
        instances_to(list, n).keys.contains_key(krate) <==> exists|i: int| 0 <= i < n && (#[trigger] list[i]).1 == krate,
        forall|i: int|
            0 <= i < n && (#[trigger] list[i]).1 == krate && (forall|j: int| i < j < n ==> (#[trigger] list[j]).1 != krate)
                ==> instances_to(list, n).keys[krate] == list[i].0,
    decreases n,
{
    if n > 0 {
        law_last_key_counts(list, n - 1, krate);
        if list[n - 1].1 == krate {
            assert(list[n - 1].1 == krate);
        }
    }
}

/// A crate can be shared if the package that it belongs to is there and holds it. It is then shared
/// as itself.
pub proof fn law_shared_crate_is_held_by_its_package(p: PackagesView, krate: u32)
    ensures
        match interned(p, krate) {
            Ok(shared) => {
                &&& shared == krate
                &&& exists|key: PackageKeyView, at: int|
                    p.keys.contains_pair(krate, key) && p.packages.contains_key(key) && 0 <= at < p.packages[key].crates.len()
                        && #[trigger] p.packages[key].crates[at] == krate
            },
            Err(NotInterned::Package) => forall|key: PackageKeyView|
                p.keys.contains_pair(krate, key) ==> !#[trigger] p.packages.contains_key(key),
            Err(NotInterned::Crate) => {
                &&& p.keys.contains_key(krate)
                &&& p.packages.contains_key(p.keys[krate])
                &&& forall|at: int|
                    0 <= at < p.packages[p.keys[krate]].crates.len() ==> #[trigger] p.packages[p.keys[krate]].crates[at] != krate
            },
        },
{
    if interned(p, krate) is Ok {
        let key = p.keys[krate];
        let at = p.packages[key].crates.index_of(krate);
        assert(p.packages[key].crates[at] == krate);
    }
}

/// Crates can be shared if each of them can. Otherwise it is told why the first that cannot cannot.
pub proof fn law_first_unshared_crate_is_told(p: PackagesView, crates: Seq<u32>, n: int)
    requires
        0 <= n <= crates.len(),
    ensures
        match refused(p, crates, n) {
            None => forall|i: int| 0 <= i < n ==> interned(p, #[trigger] crates[i]) is Ok,
            Some(error) => exists|i: int|
                0 <= i < n && interned(p, #[trigger] crates[i]) == Err::<u32, NotInterned>(error) && forall|j: int|
                    0 <= j < i ==> interned(p, #[trigger] crates[j]) is Ok,
        },
    decreases n,
{
    if n > 0 {
        law_first_unshared_crate_is_told(p, crates, n - 1);
        if refused(p, crates, n - 1) is None && refused(p, crates, n) is Some {
            assert(interned(p, crates[n - 1]) is Err);
        }
    }
}

} // verus!
