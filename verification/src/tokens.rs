//! Token codes for configuration values.
//!
//! A value is written as a sequence of tokens that no other value of its type extends. The
//! lexicographic order of the codes is the order of the values: texts by code point, `None` before
//! `Some`, lists element by element with a proper prefix first.
use crate::ordered::{
    code_points, code_points_of, compare_ranks, lemma_code_points_injective, lemma_lex_asymmetric,
    lemma_lex_irreflexive, lemma_lex_total, lemma_lex_transitive, lex_less, related, Relation,
};
use vstd::prelude::*;

verus! {

pub trait Tokens: DeepView + Sized {
    spec fn tokens(model: Self::V) -> Seq<u32>;

    /// A code is recovered from the front of any sequence.
    proof fn split(a: Self::V, b: Self::V, x: Seq<u32>, y: Seq<u32>)
        requires
            Self::tokens(a) + x == Self::tokens(b) + y,
        ensures
            a == b,
            x == y,
    ;

    fn write(&self, out: &mut Vec<u32>)
        ensures
            final(out)@ == old(out)@ + Self::tokens(self.deep_view()),
    ;

    fn duplicate(&self) -> (r: Self)
        ensures
            r.deep_view() == self.deep_view(),
    ;
}

proof fn lemma_split_front(n: int, p: Seq<u32>, x: Seq<u32>, q: Seq<u32>, y: Seq<u32>)
    requires
        p + x == q + y,
        p.len() == n,
        q.len() == n,
    ensures
        p == q,
        x == y,
{
    assert((p + x).take(n) =~= p);
    assert((q + y).take(n) =~= q);
    assert((p + x).skip(n) =~= x);
    assert((q + y).skip(n) =~= y);
}

impl Tokens for bool {
    open spec fn tokens(model: bool) -> Seq<u32> {
        seq![if model { 1u32 } else { 0u32 }]
    }

    proof fn split(a: bool, b: bool, x: Seq<u32>, y: Seq<u32>) {
        lemma_split_front(1, Self::tokens(a), x, Self::tokens(b), y);
        assert(Self::tokens(a)[0] == Self::tokens(b)[0]);
    }

    fn write(&self, out: &mut Vec<u32>) {
        if *self {
            out.push(1);
        } else {
            out.push(0);
        }
        proof {
            assert(out@ =~= old(out)@ + Self::tokens(self.deep_view()));
        }
    }

    fn duplicate(&self) -> (r: Self) {
        *self
    }
}

impl Tokens for u16 {
    open spec fn tokens(model: u16) -> Seq<u32> {
        seq![model as u32]
    }

    proof fn split(a: u16, b: u16, x: Seq<u32>, y: Seq<u32>) {
        lemma_split_front(1, Self::tokens(a), x, Self::tokens(b), y);
        assert(Self::tokens(a)[0] == Self::tokens(b)[0]);
    }

    fn write(&self, out: &mut Vec<u32>) {
        out.push(*self as u32);
        proof {
            assert(out@ =~= old(out)@ + Self::tokens(self.deep_view()));
        }
    }

    fn duplicate(&self) -> (r: Self) {
        *self
    }
}

pub open spec fn text_tokens(s: Seq<char>) -> Seq<u32> {
    code_points(s).map_values(|c: u32| (c + 1) as u32).push(0)
}

proof fn lemma_text_token(s: Seq<char>, i: int)
    requires
        0 <= i < s.len(),
    ensures
        text_tokens(s)[i] == code_points(s)[i] + 1,
        text_tokens(s)[i] > 0,
        code_points(s)[i] < u32::MAX,
{
    vstd::utf8::char_is_scalar(s[i]);
    assert(code_points(s)[i] == s[i] as u32);
}

impl Tokens for String {
    open spec fn tokens(model: Seq<char>) -> Seq<u32> {
        text_tokens(model)
    }

    proof fn split(a: Seq<char>, b: Seq<char>, x: Seq<u32>, y: Seq<u32>) {
        let (p, q) = (text_tokens(a), text_tokens(b));
        if a.len() < b.len() {
            assert((p + x)[a.len() as int] == 0);
            assert((q + y)[a.len() as int] == q[a.len() as int]);
            lemma_text_token(b, a.len() as int);
        }
        if b.len() < a.len() {
            assert((q + y)[b.len() as int] == 0);
            assert((p + x)[b.len() as int] == p[b.len() as int]);
            lemma_text_token(a, b.len() as int);
        }
        lemma_split_front(p.len() as int, p, x, q, y);
        assert forall|i: int| 0 <= i < a.len() implies code_points(a)[i] == code_points(b)[i] by {
            lemma_text_token(a, i);
            lemma_text_token(b, i);
        }
        assert(code_points(a) =~= code_points(b));
        lemma_code_points_injective(a, b);
    }

    fn write(&self, out: &mut Vec<u32>) {
        let points = code_points_of(self.as_str());
        let mut i: usize = 0;
        let ghost start = out@;
        while i < points.len()
            invariant
                i <= points.len(),
                points@ == code_points(self@),
                out@ == start + text_tokens(self@).take(i as int),
            decreases points.len() - i,
        {
            proof {
                lemma_text_token(self@, i as int);
                assert(text_tokens(self@).take(i + 1) =~= text_tokens(self@).take(i as int).push(text_tokens(self@)[i as int]));
            }
            out.push(points[i] + 1);
            i = i + 1;
        }
        out.push(0);
        proof {
            assert(out@ =~= start + text_tokens(self@));
        }
    }

    fn duplicate(&self) -> (r: Self) {
        self.clone()
    }
}

impl<T: Tokens> Tokens for Option<T> {
    open spec fn tokens(model: Option<T::V>) -> Seq<u32> {
        match model {
            None => seq![0u32],
            Some(inner) => seq![1u32] + T::tokens(inner),
        }
    }

    proof fn split(a: Option<T::V>, b: Option<T::V>, x: Seq<u32>, y: Seq<u32>) {
        let (p, q) = (Self::tokens(a) + x, Self::tokens(b) + y);
        assert(p[0] == (if a is Some { 1u32 } else { 0u32 }));
        assert(q[0] == (if b is Some { 1u32 } else { 0u32 }));
        match (a, b) {
            (Some(m), Some(n)) => {
                assert(p.skip(1) =~= T::tokens(m) + x);
                assert(q.skip(1) =~= T::tokens(n) + y);
                T::split(m, n, x, y);
            },
            _ => {
                assert(p.skip(1) =~= x);
                assert(q.skip(1) =~= y);
            },
        }
    }

    fn write(&self, out: &mut Vec<u32>) {
        match self {
            None => {
                out.push(0);
            },
            Some(inner) => {
                out.push(1);
                inner.write(out);
            },
        }
        proof {
            assert(out@ =~= old(out)@ + Self::tokens(self.deep_view()));
        }
    }

    fn duplicate(&self) -> (r: Self) {
        match self {
            None => None,
            Some(inner) => Some(inner.duplicate()),
        }
    }
}

impl<A: Tokens, B: Tokens> Tokens for (A, B) {
    open spec fn tokens(model: (A::V, B::V)) -> Seq<u32> {
        A::tokens(model.0) + B::tokens(model.1)
    }

    proof fn split(a: (A::V, B::V), b: (A::V, B::V), x: Seq<u32>, y: Seq<u32>) {
        assert(Self::tokens(a) + x =~= A::tokens(a.0) + (B::tokens(a.1) + x));
        assert(Self::tokens(b) + y =~= A::tokens(b.0) + (B::tokens(b.1) + y));
        A::split(a.0, b.0, B::tokens(a.1) + x, B::tokens(b.1) + y);
        B::split(a.1, b.1, x, y);
    }

    fn write(&self, out: &mut Vec<u32>) {
        self.0.write(out);
        self.1.write(out);
        proof {
            assert(out@ =~= old(out)@ + Self::tokens(self.deep_view()));
        }
    }

    fn duplicate(&self) -> (r: Self) {
        (self.0.duplicate(), self.1.duplicate())
    }
}

pub open spec fn list_tokens<T: Tokens>(models: Seq<T::V>) -> Seq<u32>
    decreases models.len(),
{
    if models.len() == 0 {
        seq![0u32]
    } else {
        seq![1u32] + T::tokens(models[0]) + list_tokens::<T>(models.drop_first())
    }
}

proof fn lemma_list_split<T: Tokens>(a: Seq<T::V>, b: Seq<T::V>, x: Seq<u32>, y: Seq<u32>)
    requires
        list_tokens::<T>(a) + x == list_tokens::<T>(b) + y,
    ensures
        a == b,
        x == y,
    decreases a.len(),
{
    let (p, q) = (list_tokens::<T>(a) + x, list_tokens::<T>(b) + y);
    assert(p[0] == (if a.len() > 0 { 1u32 } else { 0u32 }));
    assert(q[0] == (if b.len() > 0 { 1u32 } else { 0u32 }));
    if a.len() == 0 {
        assert(a =~= b);
        assert(p.skip(1) =~= x);
        assert(q.skip(1) =~= y);
    } else {
        let (ra, rb) = (list_tokens::<T>(a.drop_first()), list_tokens::<T>(b.drop_first()));
        assert(p.skip(1) =~= T::tokens(a[0]) + (ra + x));
        assert(q.skip(1) =~= T::tokens(b[0]) + (rb + y));
        T::split(a[0], b[0], ra + x, rb + y);
        lemma_list_split::<T>(a.drop_first(), b.drop_first(), x, y);
        assert(a =~= seq![a[0]] + a.drop_first());
        assert(b =~= seq![b[0]] + b.drop_first());
    }
}

impl<T: Tokens> Tokens for Vec<T> {
    open spec fn tokens(model: Seq<T::V>) -> Seq<u32> {
        list_tokens::<T>(model)
    }

    proof fn split(a: Seq<T::V>, b: Seq<T::V>, x: Seq<u32>, y: Seq<u32>) {
        lemma_list_split::<T>(a, b, x, y);
    }

    fn write(&self, out: &mut Vec<u32>) {
        let mut i: usize = 0;
        let ghost start = out@;
        let ghost all = self.deep_view();
        proof {
            assert(all.skip(0) =~= all);
        }
        while i < self.len()
            invariant
                i <= self.len(),
                all == self.deep_view(),
                start + list_tokens::<T>(all) == out@ + list_tokens::<T>(all.skip(i as int)),
            decreases self.len() - i,
        {
            let ghost rest = all.skip(i as int);
            let ghost before = out@;
            out.push(1);
            self[i].write(out);
            proof {
                assert(rest[0] == self[i as int].deep_view());
                assert(rest.drop_first() =~= all.skip(i + 1));
                assert(out@ + list_tokens::<T>(all.skip(i + 1)) =~= before + list_tokens::<T>(rest));
            }
            i = i + 1;
        }
        out.push(0);
        proof {
            assert(list_tokens::<T>(all.skip(i as int)) =~= seq![0u32]);
            assert(out@ =~= start + list_tokens::<T>(all));
        }
    }

    fn duplicate(&self) -> (r: Self) {
        let mut r: Vec<T> = Vec::new();
        let mut i: usize = 0;
        while i < self.len()
            invariant
                i <= self.len(),
                r.deep_view() == self.deep_view().take(i as int),
            decreases self.len() - i,
        {
            let ghost before = r.deep_view();
            r.push(self[i].duplicate());
            proof {
                assert(r.deep_view() =~= before.push(self.deep_view()[i as int]));
                assert(r.deep_view() =~= self.deep_view().take(i + 1));
            }
            i = i + 1;
        }
        proof {
            assert(self.deep_view().take(i as int) =~= self.deep_view());
        }
        r
    }
}

/// Equal codes mean equal values.
pub proof fn lemma_tokens_injective<T: Tokens>(a: T::V, b: T::V)
    requires
        T::tokens(a) == T::tokens(b),
    ensures
        a == b,
{
    assert(T::tokens(a) + Seq::<u32>::empty() =~= T::tokens(a));
    assert(T::tokens(b) + Seq::<u32>::empty() =~= T::tokens(b));
    T::split(a, b, Seq::empty(), Seq::empty());
}

/// Writes the first of several fields, of which `rest` is the code of the others.
pub fn write_field<T: Tokens>(value: &T, out: &mut Vec<u32>, Ghost(rest): Ghost<Seq<u32>>)
    ensures
        final(out)@ + rest == old(out)@ + (T::tokens(value.deep_view()) + rest),
{
    value.write(out);
    proof {
        assert(out@ + rest =~= old(out)@ + (T::tokens(value.deep_view()) + rest));
    }
}

pub fn code<T: Tokens>(value: &T) -> (r: Vec<u32>)
    ensures
        r@ == T::tokens(value.deep_view()),
{
    let mut r: Vec<u32> = Vec::new();
    value.write(&mut r);
    proof {
        assert(r@ =~= T::tokens(value.deep_view()));
    }
    r
}

pub fn compare<T: Tokens>(a: &T, b: &T) -> (r: Relation)
    ensures
        related(T::tokens(a.deep_view()), T::tokens(b.deep_view()), r),
        r == Relation::Equal <==> a.deep_view() == b.deep_view(),
{
    let x = code(a);
    let y = code(b);
    let r = compare_ranks(&x, &y);
    proof {
        match r {
            Relation::Equal => {
                lemma_tokens_injective::<T>(a.deep_view(), b.deep_view());
            },
            Relation::Less => {
                lemma_lex_asymmetric(x@, y@);
            },
            Relation::Greater => {
                lemma_lex_asymmetric(y@, x@);
            },
        }
    }
    r
}

/// Whether two values are equal.
pub fn same<T: Tokens>(a: &T, b: &T) -> (r: bool)
    ensures
        r == (a.deep_view() == b.deep_view()),
{
    match compare(a, b) {
        Relation::Equal => true,
        _ => false,
    }
}

/// Whether `a` comes after `b`.
fn above<T: Tokens>(a: &T, b: &T) -> (r: bool)
    ensures
        r == lex_less(T::tokens(b.deep_view()), T::tokens(a.deep_view())),
{
    match compare(a, b) {
        Relation::Greater => true,
        Relation::Less => {
            proof {
                lemma_lex_asymmetric(T::tokens(a.deep_view()), T::tokens(b.deep_view()));
            }
            false
        },
        Relation::Equal => {
            proof {
                lemma_lex_irreflexive(T::tokens(a.deep_view()));
            }
            false
        },
    }
}

pub open spec fn not_above<T: Tokens>(a: T::V, b: T::V) -> bool {
    a == b || lex_less(T::tokens(a), T::tokens(b))
}

/// Ascending, repetitions allowed.
pub open spec fn sorted<T: Tokens>(s: Seq<T::V>) -> bool {
    forall|i: int, j: int| 0 <= i < j < s.len() ==> not_above::<T>(#[trigger] s[i], #[trigger] s[j])
}

/// Ascending without repetition.
pub open spec fn strictly_sorted<T: Tokens>(s: Seq<T::V>) -> bool {
    forall|i: int, j: int|
        0 <= i < j < s.len() ==> lex_less(T::tokens(#[trigger] s[i]), T::tokens(#[trigger] s[j]))
}

/// Puts `item` at its place in a sorted list.
fn insert_sorted<T: Tokens>(list: &mut Vec<T>, item: T)
    requires
        sorted::<T>(old(list).deep_view()),
    ensures
        sorted::<T>(final(list).deep_view()),
        exists|n: int| 0 <= n <= old(list).deep_view().len() && final(list).deep_view() == old(list).deep_view().insert(n, item.deep_view()),
{
    let ghost before = list.deep_view();
    let mut at: usize = list.len();
    while at > 0 && above(&list[at - 1], &item)
        invariant
            at <= list.len(),
            list.deep_view() == before,
            before.len() == list.len(),
            forall|i: int| at <= i < before.len() ==> lex_less(T::tokens(item.deep_view()), T::tokens(#[trigger] before[i])),
        decreases at,
    {
        at = at - 1;
    }
    proof {
        if at > 0 {
            lemma_lex_total(T::tokens(before[at - 1]), T::tokens(item.deep_view()));
            if T::tokens(before[at - 1]) == T::tokens(item.deep_view()) {
                lemma_tokens_injective::<T>(before[at - 1], item.deep_view());
            }
        }
    }
    let ghost model = item.deep_view();
    list.insert(at, item);
    proof {
        let after = list.deep_view();
        assert(after =~= before.insert(at as int, model));
        assert forall|i: int, j: int| 0 <= i < j < after.len() implies not_above::<T>(#[trigger] after[i], #[trigger] after[j]) by {
            let n = at as int;
            let bi = if i < n { i } else { i - 1 };
            let bj = if j < n { j } else { j - 1 };
            if i != n {
                assert(after[i] == before[bi]);
            }
            if j != n {
                assert(after[j] == before[bj]);
            }
            if j == n && i < n - 1 {
                assert(not_above::<T>(before[i], before[n - 1]));
                if before[i] != before[n - 1] && before[n - 1] != model {
                    lemma_lex_transitive(T::tokens(before[i]), T::tokens(before[n - 1]), T::tokens(model));
                }
            }
        }
    }
}

/// Sorts a list.
pub fn sort<T: Tokens>(list: Vec<T>) -> (r: Vec<T>)
    ensures
        sorted::<T>(r.deep_view()),
        r.deep_view().to_multiset() == list.deep_view().to_multiset(),
{
    let mut rest = list;
    let mut r: Vec<T> = Vec::new();
    let ghost all = list.deep_view();
    proof {
        assert(r.deep_view() =~= Seq::empty());
        assert(all + r.deep_view() =~= all);
    }
    while rest.len() > 0
        invariant
            sorted::<T>(r.deep_view()),
            (rest.deep_view() + r.deep_view()).to_multiset() == all.to_multiset(),
        decreases rest.len(),
    {
        let ghost left = rest.deep_view();
        let ghost done = r.deep_view();
        match rest.pop() {
            Some(item) => {
                insert_sorted(&mut r, item);
                proof {
                    let model = item.deep_view();
                    let n = choose|n: int| 0 <= n <= done.len() && r.deep_view() == done.insert(n, model);
                    assert(rest.deep_view() =~= left.drop_last());
                    assert(left.last() == model);
                    lemma_moved(left, done, n);
                }
            },
            None => {},
        }
    }
    proof {
        assert(rest.deep_view() + r.deep_view() =~= r.deep_view());
    }
    r
}

proof fn lemma_moved<M>(left: Seq<M>, done: Seq<M>, n: int)
    requires
        left.len() > 0,
        0 <= n <= done.len(),
    ensures
        (left.drop_last() + done.insert(n, left.last())).to_multiset() == (left + done).to_multiset(),
{
    broadcast use vstd::seq_lib::group_to_multiset_ensures;

    let m = left.last();
    assert(left =~= left.drop_last().push(m));
    vstd::seq_lib::lemma_multiset_commutative(left.drop_last(), done.insert(n, m));
    vstd::seq_lib::lemma_multiset_commutative(left, done);
    assert(done.insert(n, m).to_multiset() =~= done.to_multiset().insert(m)) by {
        vstd::seq_lib::to_multiset_insert(done, n, m);
    }
    assert(left.to_multiset() =~= left.drop_last().to_multiset().insert(m));
    assert((left.drop_last() + done.insert(n, m)).to_multiset() =~= (left + done).to_multiset());
}

/// Sorts a list and drops repetitions.
pub fn sorted_unique<T: Tokens>(list: Vec<T>) -> (r: Vec<T>)
    ensures
        strictly_sorted::<T>(r.deep_view()),
        forall|m: T::V| #[trigger] r.deep_view().contains(m) <==> list.deep_view().contains(m),
{
    let ghost given = list.deep_view();
    let mut rest = sort(list);
    let ghost all = rest.deep_view();
    let mut kept: Vec<T> = Vec::new();
    proof {
        assert(kept.deep_view() =~= Seq::empty());
        assert(all.take(all.len() as int) =~= all);
    }
    // The tail is taken from the end, so `kept` holds it in reverse.
    while rest.len() > 0
        invariant
            sorted::<T>(all),
            rest.len() <= all.len(),
            rest.deep_view() == all.take(rest.len() as int),
            forall|i: int, j: int|
                0 <= i < j < kept.deep_view().len() ==> lex_less(
                    T::tokens(#[trigger] kept.deep_view()[j]),
                    T::tokens(#[trigger] kept.deep_view()[i]),
                ),
            forall|m: T::V| #[trigger] kept.deep_view().contains(m) <==> all.skip(rest.len() as int).contains(m),
            kept.deep_view().len() > 0 ==> rest.len() < all.len() && kept.deep_view().last() == all[rest.len() as int],
            kept.deep_view().len() == 0 ==> rest.len() == all.len(),
        decreases rest.len(),
    {
        let ghost before = kept.deep_view();
        let ghost n = rest.len() as int;
        let ghost left = rest.deep_view();
        match rest.pop() {
            Some(item) => {
                let ghost model = item.deep_view();
                proof {
                    assert(left[n - 1] == model);
                    assert(model == all[n - 1]);
                    assert(rest.deep_view() =~= all.take(n - 1));
                    assert(all.skip(n - 1) =~= seq![model] + all.skip(n));
                    assert forall|m: T::V| all.skip(n - 1).contains(m) <==> m == model || all.skip(n).contains(m) by {
                        if all.skip(n).contains(m) {
                            let i = all.skip(n).index_of(m);
                            assert(all.skip(n - 1)[i + 1] == m);
                        }
                        if m == model {
                            assert(all.skip(n - 1)[0] == m);
                        }
                    }
                }
                let repeated = if kept.len() > 0 {
                    same(&kept[kept.len() - 1], &item)
                } else {
                    false
                };
                if repeated {
                    proof {
                        assert(before.last() == model);
                        assert(before.contains(model));
                    }
                } else {
                    kept.push(item);
                    proof {
                        assert(kept.deep_view() =~= before.push(model));
                        assert forall|i: int, j: int| 0 <= i < j < kept.deep_view().len() implies lex_less(
                            T::tokens(#[trigger] kept.deep_view()[j]),
                            T::tokens(#[trigger] kept.deep_view()[i]),
                        ) by {
                            if j == before.len() {
                                assert(not_above::<T>(all[n - 1], all[n]));
                                if i < before.len() - 1 {
                                    assert(lex_less(T::tokens(before[before.len() - 1]), T::tokens(before[i])));
                                    lemma_lex_transitive(T::tokens(model), T::tokens(all[n]), T::tokens(before[i]));
                                }
                            } else {
                                assert(kept.deep_view()[i] == before[i] && kept.deep_view()[j] == before[j]);
                            }
                        }
                        assert forall|m: T::V| #[trigger] kept.deep_view().contains(m) <==> all.skip(n - 1).contains(m) by {
                            if before.contains(m) {
                                let i = before.index_of(m);
                                assert(kept.deep_view()[i] == m);
                            }
                            if m == model {
                                assert(kept.deep_view()[before.len() as int] == m);
                            }
                        }
                    }
                }
            },
            None => {},
        }
    }
    let r = reversed(kept);
    proof {
        assert(all.skip(0) =~= all);
        broadcast use vstd::seq_lib::group_to_multiset_ensures;

        assert forall|m: T::V| #[trigger] r.deep_view().contains(m) <==> given.contains(m) by {
            assert(given.to_multiset().count(m) == all.to_multiset().count(m));
            let back = kept.deep_view();
            if back.contains(m) {
                let i = back.index_of(m);
                assert(r.deep_view()[back.len() - 1 - i] == m);
            }
            if r.deep_view().contains(m) {
                let i = r.deep_view().index_of(m);
                assert(back[back.len() - 1 - i] == m);
            }
        }
    }
    r
}

fn reversed<T: Tokens>(list: Vec<T>) -> (r: Vec<T>)
    ensures
        r.deep_view() == list.deep_view().reverse(),
{
    let mut rest = list;
    let mut r: Vec<T> = Vec::new();
    let ghost all = list.deep_view();
    while rest.len() > 0
        invariant
            rest.len() <= all.len(),
            rest.deep_view() == all.take(rest.len() as int),
            r.deep_view() == all.reverse().take(all.len() - rest.len()),
        decreases rest.len(),
    {
        let ghost n = rest.len() as int;
        let ghost done = r.deep_view();
        let ghost left = rest.deep_view();
        match rest.pop() {
            Some(item) => {
                let ghost model = item.deep_view();
                r.push(item);
                proof {
                    assert(left[n - 1] == model);
                    assert(model == all[n - 1]);
                    assert(rest.deep_view() =~= all.take(n - 1));
                    assert(r.deep_view() =~= done.push(model));
                    assert(r.deep_view() =~= all.reverse().take(all.len() - n + 1));
                }
            },
            None => {},
        }
    }
    proof {
        assert(all.reverse().take(all.len() as int) =~= all.reverse());
    }
    r
}

/// Two ascending lists without repetition that hold the same values are the same list.
pub proof fn lemma_strictly_sorted_unique<T: Tokens>(a: Seq<T::V>, b: Seq<T::V>)
    requires
        strictly_sorted::<T>(a),
        strictly_sorted::<T>(b),
        forall|m: T::V| #[trigger] a.contains(m) <==> b.contains(m),
    ensures
        a == b,
    decreases a.len(),
{
    if a.len() == 0 {
        if b.len() > 0 {
            assert(b.contains(b[0]) && a.contains(b[0]));
        }
        assert(a =~= b);
    } else {
        assert(a.contains(a[0]));
        assert(b.len() > 0);
        assert(b.contains(b[0]) && a.contains(b[0]));
        if a[0] != b[0] {
            let i = a.index_of(b[0]);
            let j = b.index_of(a[0]);
            assert(lex_less(T::tokens(a[0]), T::tokens(a[i])));
            assert(lex_less(T::tokens(b[0]), T::tokens(b[j])));
            lemma_lex_asymmetric(T::tokens(a[0]), T::tokens(b[0]));
        }
        let (x, y) = (a.drop_first(), b.drop_first());
        assert forall|m: T::V| #[trigger] x.contains(m) <==> y.contains(m) by {
            if x.contains(m) {
                let i = x.index_of(m);
                assert(a[i + 1] == m);
                assert(lex_less(T::tokens(a[0]), T::tokens(a[i + 1])));
                lemma_lex_irreflexive(T::tokens(m));
                assert(a.contains(m));
                let j = b.index_of(m);
                assert(y[j - 1] == m);
            }
            if y.contains(m) {
                let i = y.index_of(m);
                assert(b[i + 1] == m);
                assert(lex_less(T::tokens(b[0]), T::tokens(b[i + 1])));
                lemma_lex_irreflexive(T::tokens(m));
                assert(b.contains(m) && a.contains(m));
                let j = a.index_of(m);
                assert(x[j - 1] == m);
            }
        }
        assert forall|i: int, j: int| 0 <= i < j < x.len() implies lex_less(T::tokens(#[trigger] x[i]), T::tokens(#[trigger] x[j])) by {
            assert(x[i] == a[i + 1] && x[j] == a[j + 1]);
        }
        assert forall|i: int, j: int| 0 <= i < j < y.len() implies lex_less(T::tokens(#[trigger] y[i]), T::tokens(#[trigger] y[j])) by {
            assert(y[i] == b[i + 1] && y[j] == b[j + 1]);
        }
        lemma_strictly_sorted_unique::<T>(x, y);
        assert(a =~= seq![a[0]] + x);
        assert(b =~= seq![b[0]] + y);
    }
}

/// Two sorted lists that hold the same values, each as often, are the same list.
pub proof fn lemma_sorted_unique<T: Tokens>(a: Seq<T::V>, b: Seq<T::V>)
    requires
        sorted::<T>(a),
        sorted::<T>(b),
        a.to_multiset() == b.to_multiset(),
    ensures
        a == b,
    decreases a.len(),
{
    broadcast use vstd::seq_lib::group_to_multiset_ensures;

    assert(a.to_multiset().len() == a.len() && b.to_multiset().len() == b.len());
    if a.len() == 0 {
        assert(a =~= b);
    } else {
        assert(a.contains(a[0]) && b.contains(b[0]));
        assert(b.to_multiset().count(a[0]) > 0 && a.to_multiset().count(b[0]) > 0);
        if a[0] != b[0] {
            let i = a.index_of(b[0]);
            let j = b.index_of(a[0]);
            assert(not_above::<T>(a[0], a[i]));
            assert(not_above::<T>(b[0], b[j]));
            lemma_lex_asymmetric(T::tokens(a[0]), T::tokens(b[0]));
        }
        let (x, y) = (a.drop_first(), b.drop_first());
        assert(a =~= seq![a[0]] + x);
        assert(b =~= seq![b[0]] + y);
        assert(x.to_multiset() =~= a.to_multiset().remove(a[0])) by {
            assert(a.remove(0) =~= x);
        }
        assert(y.to_multiset() =~= b.to_multiset().remove(b[0])) by {
            assert(b.remove(0) =~= y);
        }
        assert forall|i: int, j: int| 0 <= i < j < x.len() implies not_above::<T>(#[trigger] x[i], #[trigger] x[j]) by {
            assert(x[i] == a[i + 1] && x[j] == a[j + 1]);
        }
        assert forall|i: int, j: int| 0 <= i < j < y.len() implies not_above::<T>(#[trigger] y[i], #[trigger] y[j]) by {
            assert(y[i] == b[i + 1] && y[j] == b[j + 1]);
        }
        lemma_sorted_unique::<T>(x, y);
    }
}

} // verus!
