//! Ordered maps over keys whose order is the lexicographic order of a rank.
use vstd::prelude::*;

verus! {

/// How one key stands to another.
#[derive(Clone, Copy, PartialEq, Eq, Structural, Debug)]
pub enum Relation {
    Less,
    Equal,
    Greater,
}

/// Lexicographic order, a proper prefix coming first.
pub open spec fn lex_less(a: Seq<u32>, b: Seq<u32>) -> bool
    decreases a.len(),
{
    if b.len() == 0 {
        false
    } else if a.len() == 0 {
        true
    } else if a[0] != b[0] {
        a[0] < b[0]
    } else {
        lex_less(a.drop_first(), b.drop_first())
    }
}

pub open spec fn related(a: Seq<u32>, b: Seq<u32>, r: Relation) -> bool {
    match r {
        Relation::Less => lex_less(a, b),
        Relation::Equal => a == b,
        Relation::Greater => lex_less(b, a),
    }
}

pub proof fn lemma_lex_irreflexive(a: Seq<u32>)
    ensures
        !lex_less(a, a),
    decreases a.len(),
{
    if a.len() > 0 {
        lemma_lex_irreflexive(a.drop_first());
    }
}

pub proof fn lemma_lex_transitive(a: Seq<u32>, b: Seq<u32>, c: Seq<u32>)
    requires
        lex_less(a, b),
        lex_less(b, c),
    ensures
        lex_less(a, c),
    decreases a.len(),
{
    if a.len() > 0 && a[0] == b[0] && b[0] == c[0] {
        lemma_lex_transitive(a.drop_first(), b.drop_first(), c.drop_first());
    }
}

pub proof fn lemma_lex_total(a: Seq<u32>, b: Seq<u32>)
    ensures
        a == b || lex_less(a, b) || lex_less(b, a),
    decreases a.len(),
{
    if a.len() == 0 {
        if b.len() == 0 {
            assert(a =~= b);
        }
    } else if b.len() > 0 && a[0] == b[0] {
        lemma_lex_total(a.drop_first(), b.drop_first());
        if a.drop_first() == b.drop_first() {
            assert(a =~= seq![a[0]] + a.drop_first());
            assert(b =~= seq![b[0]] + b.drop_first());
        }
    }
}

pub proof fn lemma_lex_asymmetric(a: Seq<u32>, b: Seq<u32>)
    requires
        lex_less(a, b),
    ensures
        !lex_less(b, a),
        a != b,
{
    lemma_lex_irreflexive(a);
    if lex_less(b, a) {
        lemma_lex_transitive(a, b, a);
    }
}

/// A shared first token does not decide the order.
pub proof fn lemma_lex_step(a: Seq<u32>, b: Seq<u32>, i: int)
    requires
        0 <= i < a.len(),
        i < b.len(),
        a[i] == b[i],
    ensures
        lex_less(a.skip(i), b.skip(i)) == lex_less(a.skip(i + 1), b.skip(i + 1)),
{
    assert(a.skip(i).drop_first() =~= a.skip(i + 1));
    assert(b.skip(i).drop_first() =~= b.skip(i + 1));
}

/// Compares two ranks.
pub fn compare_ranks(a: &Vec<u32>, b: &Vec<u32>) -> (r: Relation)
    ensures
        related(a@, b@, r),
{
    let mut i: usize = 0;
    proof {
        assert(a@.skip(0) =~= a@);
        assert(b@.skip(0) =~= b@);
    }
    while i < a.len() && i < b.len()
        invariant
            i <= a.len(),
            i <= b.len(),
            a@.take(i as int) == b@.take(i as int),
            lex_less(a@, b@) == lex_less(a@.skip(i as int), b@.skip(i as int)),
            lex_less(b@, a@) == lex_less(b@.skip(i as int), a@.skip(i as int)),
        decreases a.len() - i,
    {
        if a[i] < b[i] {
            return Relation::Less;
        }
        if b[i] < a[i] {
            return Relation::Greater;
        }
        proof {
            lemma_lex_step(a@, b@, i as int);
            lemma_lex_step(b@, a@, i as int);
            assert(a@.take(i + 1) =~= a@.take(i as int).push(a@[i as int]));
            assert(b@.take(i + 1) =~= b@.take(i as int).push(b@[i as int]));
        }
        i = i + 1;
    }
    if i < a.len() {
        Relation::Greater
    } else if i < b.len() {
        Relation::Less
    } else {
        proof {
            assert(a@ =~= a@.take(i as int));
            assert(b@ =~= b@.take(i as int));
        }
        Relation::Equal
    }
}

/// A key: its model is its view, and its rank orders it.
pub trait OrderedKey: View + Sized {
    spec fn rank(model: Self::V) -> Seq<u32>;

    proof fn rank_injective(a: Self::V, b: Self::V)
        requires
            Self::rank(a) == Self::rank(b),
        ensures
            a == b,
    ;

    fn relation(&self, other: &Self) -> (r: Relation)
        ensures
            related(Self::rank(self@), Self::rank(other@), r),
    ;
}

pub open spec fn key_less<K: OrderedKey>(a: K::V, b: K::V) -> bool {
    lex_less(K::rank(a), K::rank(b))
}

/// Strictly ascending, so without repetition.
pub open spec fn ascending<K: OrderedKey>(keys: Seq<K::V>) -> bool {
    forall|i: int, j: int| 0 <= i < j < keys.len() ==> key_less::<K>(#[trigger] keys[i], #[trigger] keys[j])
}

pub proof fn lemma_ascending_distinct<K: OrderedKey>(keys: Seq<K::V>)
    requires
        ascending::<K>(keys),
    ensures
        forall|i: int, j: int| 0 <= i < keys.len() && 0 <= j < keys.len() && i != j ==> #[trigger] keys[i] != #[trigger] keys[j],
{
    assert forall|i: int, j: int| 0 <= i < keys.len() && 0 <= j < keys.len() && i != j implies #[trigger] keys[i] != #[trigger] keys[j] by {
        lemma_lex_irreflexive(K::rank(keys[i]));
        if i < j {
            assert(key_less::<K>(keys[i], keys[j]));
        } else {
            assert(key_less::<K>(keys[j], keys[i]));
        }
    }
}

/// Two ascending sequences of the same keys are the same sequence.
pub proof fn lemma_ascending_unique<K: OrderedKey>(a: Seq<K::V>, b: Seq<K::V>)
    requires
        ascending::<K>(a),
        ascending::<K>(b),
        forall|k: K::V| #[trigger] a.contains(k) <==> b.contains(k),
    ensures
        a == b,
    decreases a.len(),
{
    if a.len() == 0 {
        if b.len() > 0 {
            assert(b.contains(b[0]) && a.contains(b[0]));
        }
        assert(a =~= b);
    } else {
        assert(a.contains(a[0]));
        assert(b.len() > 0);
        assert(b.contains(b[0]) && a.contains(b[0]));
        if a[0] != b[0] {
            let i = index_in(a, b[0]);
            let j = index_in(b, a[0]);
            assert(key_less::<K>(a[0], a[i]));
            assert(key_less::<K>(b[0], b[j]));
            lemma_lex_asymmetric(K::rank(a[0]), K::rank(b[0]));
        }
        lemma_ascending_distinct::<K>(a);
        lemma_ascending_distinct::<K>(b);
        let (x, y) = (a.drop_first(), b.drop_first());
        assert forall|k: K::V| #[trigger] x.contains(k) <==> y.contains(k) by {
            if x.contains(k) {
                let i = index_in(x, k);
                assert(a[i + 1] == k && a.contains(k));
                let j = index_in(b, k);
                assert(y[j - 1] == k);
            }
            if y.contains(k) {
                let i = index_in(y, k);
                assert(b[i + 1] == k && b.contains(k) && a.contains(k));
                let j = index_in(a, k);
                assert(x[j - 1] == k);
            }
        }
        assert forall|i: int, j: int| 0 <= i < j < x.len() implies key_less::<K>(#[trigger] x[i], #[trigger] x[j]) by {
            assert(x[i] == a[i + 1] && x[j] == a[j + 1]);
        }
        assert forall|i: int, j: int| 0 <= i < j < y.len() implies key_less::<K>(#[trigger] y[i], #[trigger] y[j]) by {
            assert(y[i] == b[i + 1] && y[j] == b[j + 1]);
        }
        lemma_ascending_unique::<K>(x, y);
        assert(a =~= seq![a[0]] + x);
        assert(b =~= seq![b[0]] + y);
    }
}

/// A map whose entries are kept in ascending key order.
#[verifier::reject_recursive_types(K)]
pub struct OrderedMap<K: OrderedKey, V> {
    entries: Vec<(K, V)>,
}

pub closed spec fn entry_keys<K: OrderedKey, V>(entries: Seq<(K, V)>) -> Seq<K::V> {
    entries.map_values(|e: (K, V)| e.0@)
}

pub open spec fn index_in<K>(keys: Seq<K>, k: K) -> int {
    choose|i: int| 0 <= i < keys.len() && keys[i] == k
}

impl<K: OrderedKey, V> OrderedMap<K, V> {
    #[verifier::type_invariant]
    closed spec fn ordered(self) -> bool {
        ascending::<K>(self.keys())
    }

    /// The keys, in ascending order.
    pub closed spec fn keys(self) -> Seq<K::V> {
        entry_keys(self.entries@)
    }

    /// The values, in the order of their keys.
    pub closed spec fn values(self) -> Seq<V> {
        self.entries@.map_values(|e: (K, V)| e.1)
    }
}

impl<K: OrderedKey, V> View for OrderedMap<K, V> {
    type V = Map<K::V, V>;

    open spec fn view(&self) -> Map<K::V, V> {
        Map::new(
            |k: K::V| self.keys().contains(k),
            |k: K::V| self.values()[index_in(self.keys(), k)],
        )
    }
}

/// What the key and value sequences of a map say of its view.
pub open spec fn listed<K: OrderedKey, V>(m: OrderedMap<K, V>) -> bool {
    &&& ascending::<K>(m.keys())
    &&& m.keys().len() == m.values().len()
    &&& forall|i: int| 0 <= i < m.keys().len() ==> m@.contains_key(#[trigger] m.keys()[i]) && m@[m.keys()[i]] == m.values()[i]
    &&& forall|k: K::V| #[trigger] m@.contains_key(k) ==> m.keys().contains(k)
}

impl<K: OrderedKey, V> OrderedMap<K, V> {
    proof fn lemma_listed(self)
        requires
            self.ordered(),
        ensures
            listed(self),
    {
        lemma_ascending_distinct::<K>(self.keys());
        assert forall|i: int| 0 <= i < self.keys().len() implies self@.contains_key(#[trigger] self.keys()[i])
            && self@[self.keys()[i]] == self.values()[i] by {
            assert(self.keys().contains(self.keys()[i]));
            let j = index_in(self.keys(), self.keys()[i]);
            assert(0 <= j < self.keys().len() && self.keys()[j] == self.keys()[i]);
        }
    }

    pub fn new() -> (r: Self)
        ensures
            r@ == Map::<K::V, V>::empty(),
            r.keys() == Seq::<K::V>::empty(),
    {
        let r = OrderedMap { entries: Vec::new() };
        proof {
            assert(r.keys() =~= Seq::<K::V>::empty());
            assert(r@ =~= Map::<K::V, V>::empty());
        }
        r
    }

    pub fn len(&self) -> (r: usize)
        ensures
            r == self.keys().len(),
            listed(*self),
    {
        proof {
            use_type_invariant(self);
            self.lemma_listed();
        }
        self.entries.len()
    }

    pub fn is_empty(&self) -> (r: bool)
        ensures
            r == (self@ == Map::<K::V, V>::empty()),
            listed(*self),
    {
        proof {
            use_type_invariant(self);
            self.lemma_listed();
            if self.keys().len() > 0 {
                assert(self@.contains_key(self.keys()[0]));
            } else {
                assert(self@ =~= Map::<K::V, V>::empty());
            }
        }
        self.entries.len() == 0
    }

    pub fn key_at(&self, i: usize) -> (r: &K)
        requires
            i < self.keys().len(),
        ensures
            r@ == self.keys()[i as int],
    {
        &self.entries[i].0
    }

    pub fn value_at(&self, i: usize) -> (r: &V)
        requires
            i < self.keys().len(),
        ensures
            *r == self.values()[i as int],
    {
        &self.entries[i].1
    }

    /// The first index whose key is not below `k`, and whether it holds `k`.
    fn position(&self, k: &K) -> (r: (usize, bool))
        requires
            self.ordered(),
        ensures
            r.0 <= self.keys().len(),
            forall|i: int| 0 <= i < r.0 ==> key_less::<K>(#[trigger] self.keys()[i], k@),
            r.1 ==> r.0 < self.keys().len() && self.keys()[r.0 as int] == k@,
            !r.1 ==> forall|i: int| r.0 <= i < self.keys().len() ==> key_less::<K>(k@, #[trigger] self.keys()[i]),
    {
        let mut low: usize = 0;
        let mut high: usize = self.entries.len();
        while low < high
            invariant
                low <= high <= self.keys().len(),
                self.entries@.len() == self.keys().len(),
                ascending::<K>(self.keys()),
                forall|i: int| 0 <= i < low ==> key_less::<K>(#[trigger] self.keys()[i], k@),
                forall|i: int| high <= i < self.keys().len() ==> key_less::<K>(k@, #[trigger] self.keys()[i]),
            decreases high - low,
        {
            let middle: usize = low + (high - low) / 2;
            match self.entries[middle].0.relation(k) {
                Relation::Less => {
                    proof {
                        assert forall|i: int| 0 <= i < middle + 1 implies key_less::<K>(#[trigger] self.keys()[i], k@) by {
                            if i < middle {
                                assert(key_less::<K>(self.keys()[i], self.keys()[middle as int]));
                                lemma_lex_transitive(K::rank(self.keys()[i]), K::rank(self.keys()[middle as int]), K::rank(k@));
                            }
                        }
                    }
                    low = middle + 1;
                },
                Relation::Equal => {
                    proof {
                        K::rank_injective(self.keys()[middle as int], k@);
                    }
                    return (middle, true);
                },
                Relation::Greater => {
                    proof {
                        assert forall|i: int| middle <= i < self.keys().len() implies key_less::<K>(k@, #[trigger] self.keys()[i]) by {
                            if i > middle {
                                assert(key_less::<K>(self.keys()[middle as int], self.keys()[i]));
                                lemma_lex_transitive(K::rank(k@), K::rank(self.keys()[middle as int]), K::rank(self.keys()[i]));
                            }
                        }
                    }
                    high = middle;
                },
            }
        }
        (low, false)
    }

    proof fn lemma_absent(self, k: K::V, at: int)
        requires
            self.ordered(),
            0 <= at <= self.keys().len(),
            forall|i: int| 0 <= i < at ==> key_less::<K>(#[trigger] self.keys()[i], k),
            forall|i: int| at <= i < self.keys().len() ==> key_less::<K>(k, #[trigger] self.keys()[i]),
        ensures
            !self.keys().contains(k),
    {
        if self.keys().contains(k) {
            let i = index_in(self.keys(), k);
            lemma_lex_irreflexive(K::rank(k));
        }
    }

    pub fn get(&self, k: &K) -> (r: Option<&V>)
        ensures
            match r {
                Some(v) => self@.contains_key(k@) && *v == self@[k@],
                None => !self@.contains_key(k@),
            },
    {
        proof {
            use_type_invariant(self);
            self.lemma_listed();
        }
        let at = self.position(k);
        if at.1 {
            Some(&self.entries[at.0].1)
        } else {
            proof {
                self.lemma_absent(k@, at.0 as int);
            }
            None
        }
    }

    pub fn contains_key(&self, k: &K) -> (r: bool)
        ensures
            r == self@.contains_key(k@),
    {
        self.get(k).is_some()
    }

    pub fn insert(&mut self, k: K, v: V) -> (r: Option<V>)
        ensures
            final(self)@ == old(self)@.insert(k@, v),
            r == (if old(self)@.contains_key(k@) { Some(old(self)@[k@]) } else { None::<V> }),
    {
        proof {
            use_type_invariant(&*self);
            self.lemma_listed();
        }
        let ghost before = *self;
        let at = self.position(&k);
        let mut entries: Vec<(K, V)> = Vec::new();
        std::mem::swap(&mut entries, &mut self.entries);
        let ghost start = entries@;
        if at.1 {
            let kept = entries.remove(at.0);
            let ghost gone = entries@;
            entries.insert(at.0, (k, v));
            proof {
                let after = OrderedMap { entries };
                assert(after.keys() =~= before.keys());
                assert(after.values() =~= before.values().update(at.0 as int, v));
                after.lemma_listed();
                assert(after@ =~= before@.insert(k@, v)) by {
                    lemma_ascending_distinct::<K>(before.keys());
                    assert forall|o: K::V| after@.contains_key(o) implies after@[o] == before@.insert(k@, v)[o] by {
                        let i = index_in(after.keys(), o);
                        assert(after.keys()[i] == o && before.keys()[i] == o);
                        assert(after@[o] == after.values()[i]);
                    }
                }
            }
            self.entries = entries;
            Some(kept.1)
        } else {
            proof {
                before.lemma_absent(k@, at.0 as int);
            }
            entries.insert(at.0, (k, v));
            proof {
                let after = OrderedMap { entries };
                let n = at.0 as int;
                assert(after.keys() =~= before.keys().insert(n, k@));
                assert(after.values() =~= before.values().insert(n, v));
                assert forall|i: int, j: int| 0 <= i < j < after.keys().len() implies key_less::<K>(#[trigger] after.keys()[i], #[trigger] after.keys()[j]) by {
                    let bi = if i < n { i } else { i - 1 };
                    let bj = if j < n { j } else { j - 1 };
                    if i != n {
                        assert(after.keys()[i] == before.keys()[bi]);
                    }
                    if j != n {
                        assert(after.keys()[j] == before.keys()[bj]);
                    }
                }
                after.lemma_listed();
                assert(after@ =~= before@.insert(k@, v)) by {
                    assert(after.keys()[n] == k@);
                    assert(after@.contains_key(k@));
                    assert forall|o: K::V| after@.contains_key(o) implies before@.insert(k@, v).contains_key(o) && after@[o] == before@.insert(k@, v)[o] by {
                        let i = index_in(after.keys(), o);
                        assert(after.keys()[i] == o);
                        assert(after@[o] == after.values()[i]);
                        if i != n {
                            let bi = if i < n { i } else { i - 1 };
                            assert(before.keys()[bi] == o);
                        }
                    }
                    assert forall|o: K::V| before@.insert(k@, v).contains_key(o) implies after@.contains_key(o) by {
                        if o != k@ {
                            let bi = index_in(before.keys(), o);
                            let i = if bi < n { bi } else { bi + 1 };
                            assert(after.keys()[i] == o);
                        }
                    }
                }
            }
            self.entries = entries;
            None
        }
    }

    pub fn remove(&mut self, k: &K) -> (r: Option<V>)
        ensures
            final(self)@ == old(self)@.remove(k@),
            r == (if old(self)@.contains_key(k@) { Some(old(self)@[k@]) } else { None::<V> }),
    {
        proof {
            use_type_invariant(&*self);
            self.lemma_listed();
        }
        let ghost before = *self;
        let at = self.position(k);
        if at.1 {
            let mut entries: Vec<(K, V)> = Vec::new();
            std::mem::swap(&mut entries, &mut self.entries);
            let gone = entries.remove(at.0);
            proof {
                let after = OrderedMap { entries };
                let n = at.0 as int;
                assert(after.keys() =~= before.keys().remove(n));
                assert(after.values() =~= before.values().remove(n));
                lemma_ascending_distinct::<K>(before.keys());
                assert forall|i: int, j: int| 0 <= i < j < after.keys().len() implies key_less::<K>(#[trigger] after.keys()[i], #[trigger] after.keys()[j]) by {
                    let bi = if i < n { i } else { i + 1 };
                    let bj = if j < n { j } else { j + 1 };
                    assert(after.keys()[i] == before.keys()[bi]);
                    assert(after.keys()[j] == before.keys()[bj]);
                }
                after.lemma_listed();
                assert(after@ =~= before@.remove(k@)) by {
                    assert forall|o: K::V| after@.contains_key(o) implies before@.remove(k@).contains_key(o) && after@[o] == before@.remove(k@)[o] by {
                        let i = index_in(after.keys(), o);
                        assert(after.keys()[i] == o);
                        assert(after@[o] == after.values()[i]);
                        let bi = if i < n { i } else { i + 1 };
                        assert(before.keys()[bi] == o);
                    }
                    assert forall|o: K::V| before@.remove(k@).contains_key(o) implies after@.contains_key(o) by {
                        let bi = index_in(before.keys(), o);
                        assert(before.keys()[bi] == o && bi != n);
                        let i = if bi < n { bi } else { bi - 1 };
                        assert(after.keys()[i] == o);
                    }
                }
            }
            self.entries = entries;
            Some(gone.1)
        } else {
            proof {
                before.lemma_absent(k@, at.0 as int);
                assert(self@ =~= before@.remove(k@));
            }
            None
        }
    }
}

/// The keys of a finite domain in ascending order.
pub open spec fn sorted_keys<K: OrderedKey>(dom: Set<K::V>) -> Seq<K::V> {
    choose|s: Seq<K::V>| ascending::<K>(s) && s.to_set() == dom
}

spec fn placed<K: OrderedKey>(s: Seq<K::V>, a: K::V) -> Seq<K::V>
    decreases s.len(),
{
    if s.len() == 0 {
        seq![a]
    } else if key_less::<K>(a, s[0]) {
        seq![a] + s
    } else {
        seq![s[0]] + placed::<K>(s.drop_first(), a)
    }
}

proof fn lemma_placed<K: OrderedKey>(s: Seq<K::V>, a: K::V)
    requires
        ascending::<K>(s),
        !s.contains(a),
    ensures
        ascending::<K>(placed::<K>(s, a)),
        forall|k: K::V| #[trigger] placed::<K>(s, a).contains(k) <==> k == a || s.contains(k),
    decreases s.len(),
{
    let t = placed::<K>(s, a);
    if s.len() == 0 {
        assert(t[0] == a);
    } else if key_less::<K>(a, s[0]) {
        assert forall|i: int, j: int| 0 <= i < j < t.len() implies key_less::<K>(#[trigger] t[i], #[trigger] t[j]) by {
            assert(t[j] == s[j - 1]);
            if i == 0 {
                if j > 1 {
                    assert(key_less::<K>(s[0], s[j - 1]));
                    lemma_lex_transitive(K::rank(a), K::rank(s[0]), K::rank(s[j - 1]));
                }
            } else {
                assert(t[i] == s[i - 1]);
            }
        }
        assert forall|k: K::V| #[trigger] t.contains(k) <==> k == a || s.contains(k) by {
            if s.contains(k) {
                let i = index_in(s, k);
                assert(t[i + 1] == k);
            }
            if k == a {
                assert(t[0] == k);
            }
            if t.contains(k) {
                let i = index_in(t, k);
                if i > 0 {
                    assert(s[i - 1] == k);
                }
            }
        }
    } else {
        let rest = s.drop_first();
        assert(s.contains(s[0]));
        lemma_lex_total(K::rank(a), K::rank(s[0]));
        if K::rank(a) == K::rank(s[0]) {
            K::rank_injective(a, s[0]);
        }
        assert(key_less::<K>(s[0], a));
        assert forall|i: int, j: int| 0 <= i < j < rest.len() implies key_less::<K>(#[trigger] rest[i], #[trigger] rest[j]) by {
            assert(rest[i] == s[i + 1] && rest[j] == s[j + 1]);
        }
        assert(!rest.contains(a)) by {
            if rest.contains(a) {
                let i = index_in(rest, a);
                assert(s[i + 1] == a);
            }
        }
        lemma_placed::<K>(rest, a);
        let tail = placed::<K>(rest, a);
        assert(t =~= seq![s[0]] + tail);
        assert forall|i: int, j: int| 0 <= i < j < t.len() implies key_less::<K>(#[trigger] t[i], #[trigger] t[j]) by {
            assert(t[j] == tail[j - 1]);
            if i == 0 {
                assert(tail.contains(tail[j - 1]));
                if tail[j - 1] != a {
                    let x = index_in(rest, tail[j - 1]);
                    assert(s[x + 1] == tail[j - 1]);
                    assert(key_less::<K>(s[0], s[x + 1]));
                }
            } else {
                assert(t[i] == tail[i - 1]);
            }
        }
        assert forall|k: K::V| #[trigger] t.contains(k) <==> k == a || s.contains(k) by {
            if t.contains(k) {
                let i = index_in(t, k);
                if i > 0 {
                    assert(tail[i - 1] == k && tail.contains(k));
                    if k != a {
                        let x = index_in(rest, k);
                        assert(s[x + 1] == k);
                    }
                }
            }
            if k == a || s.contains(k) {
                if k == s[0] {
                    assert(t[0] == k);
                } else {
                    if k != a {
                        let x = index_in(s, k);
                        assert(rest[x - 1] == k);
                    }
                    assert(tail.contains(k));
                    let i = index_in(tail, k);
                    assert(t[i + 1] == k);
                }
            }
        }
    }
}

/// A finite domain has its keys in ascending order.
pub proof fn lemma_sorted_exists<K: OrderedKey>(dom: Set<K::V>)
    requires
        dom.finite(),
    ensures
        ascending::<K>(sorted_keys::<K>(dom)),
        sorted_keys::<K>(dom).to_set() == dom,
    decreases dom.len(),
{
    if dom.len() == 0 {
        let s = Seq::<K::V>::empty();
        assert(s.to_set() =~= dom);
        assert(ascending::<K>(s) && s.to_set() == dom);
    } else {
        let a = dom.choose();
        let rest = dom.remove(a);
        lemma_sorted_exists::<K>(rest);
        let s = sorted_keys::<K>(rest);
        assert(!s.contains(a)) by {
            assert(s.to_set().contains(a) <==> rest.contains(a));
        }
        lemma_placed::<K>(s, a);
        let t = placed::<K>(s, a);
        assert(t.to_set() =~= dom) by {
            assert forall|k: K::V| t.to_set().contains(k) <==> dom.contains(k) by {
                assert(t.to_set().contains(k) <==> t.contains(k));
                assert(s.to_set().contains(k) <==> s.contains(k));
            }
        }
        assert(ascending::<K>(t) && t.to_set() == dom);
    }
}

impl<K: OrderedKey, V> OrderedMap<K, V> {
    /// A map has as many entries as keys.
    pub proof fn lemma_len(self)
        requires
            listed(self),
        ensures
            self@.dom().len() == self.keys().len(),
            self@.dom().finite(),
    {
        assert(self@.dom() =~= self.keys().to_set());
        vstd::seq_lib::seq_to_set_is_finite(self.keys());
        lemma_ascending_distinct::<K>(self.keys());
        assert(self.keys().no_duplicates());
        self.keys().unique_seq_to_set();
    }

    /// The keys of a map can be listed in ascending order.
    pub proof fn lemma_domain_sorted(self)
        ensures
            ascending::<K>(sorted_keys::<K>(self@.dom())),
            sorted_keys::<K>(self@.dom()).to_set() == self@.dom(),
            self@.dom().finite(),
    {
        assert(self@.dom() =~= self.keys().to_set());
        vstd::seq_lib::seq_to_set_is_finite(self.keys());
        lemma_sorted_exists::<K>(self@.dom());
    }
}

pub proof fn lemma_sorted_keys<K: OrderedKey, V>(m: OrderedMap<K, V>)
    requires
        listed(m),
    ensures
        m.keys() == sorted_keys::<K>(m@.dom()),
{
    let keys = m.keys();
    assert(keys.to_set() =~= m@.dom()) by {
        assert forall|k: K::V| keys.to_set().contains(k) <==> m@.dom().contains(k) by {
            if keys.contains(k) {
                let i = index_in(keys, k);
                assert(m@.contains_key(keys[i]));
            }
            if m@.contains_key(k) {
                assert(keys.contains(k));
            }
        }
    }
    let s = sorted_keys::<K>(m@.dom());
    assert(ascending::<K>(s) && s.to_set() == m@.dom());
    assert forall|k: K::V| #[trigger] keys.contains(k) <==> s.contains(k) by {
        assert(keys.to_set().contains(k) <==> s.to_set().contains(k));
    }
    lemma_ascending_unique::<K>(keys, s);
}

/// The code points of a text, which order texts as `str` does.
pub open spec fn code_points(s: Seq<char>) -> Seq<u32> {
    s.map_values(|c: char| c as u32)
}

pub fn chars_of(s: &str) -> (r: Vec<char>)
    ensures
        r@ == s@,
{
    let mut r: Vec<char> = Vec::new();
    for c in it: s.chars()
        invariant
            r@ == it.seq().take(it.index()),
            it.seq() == s@,
    {
        r.push(c);
        proof {
            assert(it.seq().take(it.index() + 1) =~= it.seq().take(it.index()).push(c));
        }
    }
    proof {
        assert(r@ =~= s@);
    }
    r
}

pub fn code_points_of(s: &str) -> (r: Vec<u32>)
    ensures
        r@ == code_points(s@),
{
    let chars = chars_of(s);
    let mut r: Vec<u32> = Vec::new();
    let mut i: usize = 0;
    while i < chars.len()
        invariant
            i <= chars.len(),
            chars@ == s@,
            r@ == code_points(s@).take(i as int),
        decreases chars.len() - i,
    {
        r.push(chars[i] as u32);
        proof {
            assert(code_points(s@).take(i + 1) =~= code_points(s@).take(i as int).push(code_points(s@)[i as int]));
        }
        i = i + 1;
    }
    proof {
        assert(code_points(s@).take(i as int) =~= code_points(s@));
    }
    r
}

pub proof fn lemma_code_points_injective(a: Seq<char>, b: Seq<char>)
    requires
        code_points(a) == code_points(b),
    ensures
        a == b,
{
    assert(a.len() == code_points(a).len());
    assert(b.len() == code_points(b).len());
    assert forall|i: int| 0 <= i < a.len() implies a[i] == b[i] by {
        assert(code_points(a)[i] == a[i] as u32);
        assert(code_points(b)[i] == b[i] as u32);
        vstd::utf8::char_u32_cast(a[i], a[i] as u32);
        vstd::utf8::char_u32_cast(b[i], b[i] as u32);
    }
    assert(a =~= b);
}

impl OrderedKey for String {
    open spec fn rank(model: Seq<char>) -> Seq<u32> {
        code_points(model)
    }

    proof fn rank_injective(a: Seq<char>, b: Seq<char>) {
        lemma_code_points_injective(a, b);
    }

    fn relation(&self, other: &Self) -> (r: Relation) {
        let a = code_points_of(self.as_str());
        let b = code_points_of(other.as_str());
        compare_ranks(&a, &b)
    }
}

impl OrderedKey for u32 {
    open spec fn rank(model: u32) -> Seq<u32> {
        seq![model]
    }

    proof fn rank_injective(a: u32, b: u32) {
        assert(Self::rank(a)[0] == a);
        assert(Self::rank(b)[0] == b);
    }

    fn relation(&self, other: &Self) -> (r: Relation) {
        proof {
            reveal_with_fuel(lex_less, 2);
        }
        if *self < *other {
            Relation::Less
        } else if *self == *other {
            Relation::Equal
        } else {
            Relation::Greater
        }
    }
}

impl OrderedKey for u64 {
    open spec fn rank(model: u64) -> Seq<u32> {
        seq![(model / 0x1_0000_0000) as u32, (model % 0x1_0000_0000) as u32]
    }

    proof fn rank_injective(a: u64, b: u64) {
        assert(Self::rank(a)[0] == Self::rank(b)[0]);
        assert(Self::rank(a)[1] == Self::rank(b)[1]);
        assert(a / 0x1_0000_0000 <= u32::MAX && b / 0x1_0000_0000 <= u32::MAX);
    }

    fn relation(&self, other: &Self) -> (r: Relation) {
        proof {
            reveal_with_fuel(lex_less, 3);
            let (a, b) = (Self::rank(*self), Self::rank(*other));
            assert(a.drop_first() =~= seq![a[1]]);
            assert(b.drop_first() =~= seq![b[1]]);
        }
        if *self < *other {
            Relation::Less
        } else if *self == *other {
            Relation::Equal
        } else {
            Relation::Greater
        }
    }
}

/// Ascending integer keys ascend as integers.
pub proof fn lemma_u64_key_order(a: u64, b: u64)
    ensures
        key_less::<u64>(a, b) == (a < b),
{
    reveal_with_fuel(lex_less, 3);
    let (x, y) = (u64::rank(a), u64::rank(b));
    assert(x.drop_first() =~= seq![x[1]]);
    assert(y.drop_first() =~= seq![y[1]]);
}

/// The numbers of a finite set, each once, from the smallest to the largest.
pub proof fn law_numbers_ascend(dom: Set<u32>)
    requires
        dom.finite(),
    ensures
        forall|i: int, j: int| 0 <= i < j < sorted_keys::<u32>(dom).len() ==> #[trigger] sorted_keys::<u32>(dom)[i]
            < #[trigger] sorted_keys::<u32>(dom)[j],
        forall|k: u32| dom.contains(k) <==> #[trigger] sorted_keys::<u32>(dom).contains(k),
{
    lemma_sorted_exists::<u32>(dom);
    let s = sorted_keys::<u32>(dom);
    assert forall|i: int, j: int| 0 <= i < j < s.len() implies #[trigger] s[i] < #[trigger] s[j] by {
        assert(key_less::<u32>(s[i], s[j]));
        reveal_with_fuel(lex_less, 2);
    }
    assert forall|k: u32| dom.contains(k) <==> #[trigger] s.contains(k) by {
        assert(s.to_set().contains(k) <==> s.contains(k));
    }
}

} // verus!
