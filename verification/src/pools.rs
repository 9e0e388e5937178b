//! The macro servers that are running, and who may use them.
use crate::spawn_key::{ProcMacroSpawnKey, SpawnKeyView};
use crate::tokens::same;
use vstd::prelude::*;

verus! {

/// A running server: what it was started for, with how many processes, and its number.
#[derive(Debug)]
pub struct PoolEntry {
    pub key: ProcMacroSpawnKey,
    pub processes: usize,
    pub client: u64,
}

#[verifier::ext_equal]
pub struct PoolEntryView {
    pub key: SpawnKeyView,
    pub processes: usize,
    pub client: u64,
}

impl View for PoolEntry {
    type V = PoolEntryView;

    open spec fn view(&self) -> PoolEntryView {
        PoolEntryView { key: self.key.deep_view(), processes: self.processes, client: self.client }
    }
}

pub struct SharedProcMacroPools {
    pub entries: Vec<PoolEntry>,
}

impl View for SharedProcMacroPools {
    type V = Seq<PoolEntryView>;

    open spec fn view(&self) -> Seq<PoolEntryView> {
        self.entries@.map_values(|e: PoolEntry| e@)
    }
}

pub open spec fn is_for(e: PoolEntryView, key: SpawnKeyView, processes: usize) -> bool {
    e.key == key && e.processes == processes
}

/// The entries of servers that someone still holds, among the first `n`.
pub open spec fn held_to(pools: Seq<PoolEntryView>, live: Seq<u64>, n: int) -> Seq<PoolEntryView>
    decreases n,
{
    if n <= 0 {
        Seq::empty()
    } else if live.contains(pools[n - 1].client) {
        held_to(pools, live, n - 1).push(pools[n - 1])
    } else {
        held_to(pools, live, n - 1)
    }
}

/// The entries for other servers, among the first `n`.
pub open spec fn others_to(pools: Seq<PoolEntryView>, key: SpawnKeyView, processes: usize, n: int) -> Seq<PoolEntryView>
    decreases n,
{
    if n <= 0 {
        Seq::empty()
    } else if is_for(pools[n - 1], key, processes) {
        others_to(pools, key, processes, n - 1)
    } else {
        others_to(pools, key, processes, n - 1).push(pools[n - 1])
    }
}

/// The first server that was started for the key.
pub open spec fn first_for(pools: Seq<PoolEntryView>, key: SpawnKeyView, processes: usize) -> Option<u64>
    decreases pools.len(),
{
    if pools.len() == 0 {
        None
    } else if is_for(pools[0], key, processes) {
        Some(pools[0].client)
    } else {
        first_for(pools.drop_first(), key, processes)
    }
}

/// The server that can be used for a key: the first that was started for it, if it still runs and
/// is not rejected.
pub open spec fn usable(
    pools: Seq<PoolEntryView>,
    key: SpawnKeyView,
    processes: usize,
    exited: Seq<u64>,
    rejected: Seq<u64>,
) -> Option<u64> {
    match first_for(pools, key, processes) {
        Some(client) => if exited.contains(client) || rejected.contains(client) {
            None
        } else {
            Some(client)
        },
        None => None,
    }
}

fn contains_number(list: &Vec<u64>, number: u64) -> (r: bool)
    ensures
        r == list@.contains(number),
{
    let mut i: usize = 0;
    while i < list.len()
        invariant
            i <= list.len(),
            forall|j: int| 0 <= j < i ==> list@[j] != number,
        decreases list.len() - i,
    {
        if list[i] == number {
            return true;
        }
        i = i + 1;
    }
    false
}

impl SharedProcMacroPools {
    pub fn new() -> (r: Self)
        ensures
            r@ == Seq::<PoolEntryView>::empty(),
    {
        let r = SharedProcMacroPools { entries: Vec::new() };
        proof {
            assert(r@ =~= Seq::empty());
        }
        r
    }

    /// Keeps the entries that are wanted: those in `live`, or those not for the key.
    fn retain(&mut self, live: Option<&Vec<u64>>, other_than: Option<(&ProcMacroSpawnKey, usize)>)
        requires
            live is Some <==> other_than is None,
        ensures
            live matches Some(live) ==> final(self)@ == held_to(old(self)@, live@, old(self)@.len() as int),
            other_than matches Some((key, processes)) ==> final(self)@ == others_to(
                old(self)@,
                key.deep_view(),
                processes,
                old(self)@.len() as int,
            ),
    {
        let ghost all = self@;
        let ghost whole = self.entries@;
        let mut rest: Vec<PoolEntry> = Vec::new();
        std::mem::swap(&mut self.entries, &mut rest);
        let mut kept: Vec<PoolEntry> = Vec::new();
        let ghost mut i: int = 0;
        proof {
            assert(whole.skip(0) =~= whole);
            assert(kept@.map_values(|e: PoolEntry| e@) =~= Seq::empty());
        }
        while rest.len() > 0
            invariant
                0 <= i <= whole.len(),
                rest@ == whole.skip(i),
                all == whole.map_values(|e: PoolEntry| e@),
                live is Some <==> other_than is None,
                live matches Some(live) ==> kept@.map_values(|e: PoolEntry| e@) == held_to(all, live@, i),
                other_than matches Some((key, processes)) ==> kept@.map_values(|e: PoolEntry| e@) == others_to(
                    all,
                    key.deep_view(),
                    processes,
                    i,
                ),
            decreases rest.len(),
        {
            let entry = rest.remove(0);
            let ghost view = entry@;
            let ghost before = kept@.map_values(|e: PoolEntry| e@);
            proof {
                assert(whole.skip(i)[0] == whole[i]);
                assert(all[i] == view);
                assert(whole.skip(i).remove(0) =~= whole.skip(i + 1));
            }
            let keep = match live {
                Some(live) => contains_number(live, entry.client),
                None => match other_than {
                    Some((key, processes)) => !(same(&entry.key, key) && entry.processes == processes),
                    None => true,
                },
            };
            if keep {
                kept.push(entry);
                proof {
                    assert(kept@.map_values(|e: PoolEntry| e@) =~= before.push(view));
                }
            }
            proof {
                i = i + 1;
            }
        }
        self.entries = kept;
    }

    /// The server to use for a key, if one can be used. Servers that no one holds are forgotten.
    pub fn client(
        &mut self,
        key: &ProcMacroSpawnKey,
        processes: usize,
        live: &Vec<u64>,
        exited: &Vec<u64>,
        rejected: &Vec<u64>,
    ) -> (r: Option<u64>)
        ensures
            final(self)@ == held_to(old(self)@, live@, old(self)@.len() as int),
            r == usable(final(self)@, key.deep_view(), processes, exited@, rejected@),
    {
        self.retain(Some(live), None);
        let ghost all = self@;
        let mut i: usize = 0;
        proof {
            assert(all.skip(0) =~= all);
        }
        while i < self.entries.len()
            invariant
                i <= self.entries.len(),
                all == self@,
                all == held_to(old(self)@, live@, old(self)@.len() as int),
                first_for(all, key.deep_view(), processes) == first_for(all.skip(i as int), key.deep_view(), processes),
            decreases self.entries.len() - i,
        {
            proof {
                assert(all.skip(i as int).drop_first() =~= all.skip(i + 1));
                assert(all.skip(i as int)[0] == self.entries@[i as int]@);
            }
            let entry = &self.entries[i];
            if same(&entry.key, key) && entry.processes == processes {
                return if contains_number(exited, entry.client) || contains_number(rejected, entry.client) {
                    None
                } else {
                    Some(entry.client)
                };
            }
            i = i + 1;
        }
        None
    }

    /// Takes in a server that was started for a key, in place of others started for it.
    pub fn spawned(&mut self, key: ProcMacroSpawnKey, processes: usize, client: u64)
        ensures
            final(self)@ == others_to(old(self)@, key.deep_view(), processes, old(self)@.len() as int).push(
                PoolEntryView { key: key.deep_view(), processes, client },
            ),
    {
        self.retain(None, Some((&key, processes)));
        let ghost before = self@;
        let ghost view = PoolEntryView { key: key.deep_view(), processes, client };
        self.entries.push(PoolEntry { key, processes, client });
        proof {
            assert(self@ =~= before.push(view));
        }
    }
}

proof fn lemma_others(pools: Seq<PoolEntryView>, key: SpawnKeyView, processes: usize, n: int)
    requires
        0 <= n <= pools.len(),
    ensures
        forall|i: int| 0 <= i < others_to(pools, key, processes, n).len() ==> !is_for(#[trigger] others_to(pools, key, processes, n)[i], key, processes),
    decreases n,
{
    if n > 0 {
        lemma_others(pools, key, processes, n - 1);
        let before = others_to(pools, key, processes, n - 1);
        let r = others_to(pools, key, processes, n);
        assert forall|i: int| 0 <= i < r.len() implies !is_for(#[trigger] r[i], key, processes) by {
            if i < before.len() {
                assert(r[i] == before[i]);
            }
        }
    }
}

proof fn lemma_first_for_last(pools: Seq<PoolEntryView>, e: PoolEntryView)
    requires
        forall|i: int| 0 <= i < pools.len() ==> !is_for(#[trigger] pools[i], e.key, e.processes),
    ensures
        first_for(pools.push(e), e.key, e.processes) == Some(e.client),
    decreases pools.len(),
{
    if pools.len() > 0 {
        let rest = pools.drop_first();
        assert forall|i: int| 0 <= i < rest.len() implies !is_for(#[trigger] rest[i], e.key, e.processes) by {
            assert(rest[i] == pools[i + 1]);
        }
        lemma_first_for_last(rest, e);
        assert(!is_for(pools[0], e.key, e.processes));
        assert(pools.push(e).drop_first() =~= rest.push(e));
    } else {
        assert(pools.push(e)[0] == e);
    }
}

/// A server that was started for a key is the one that workspaces with that key get from then on,
/// as long as it runs, is held and is not rejected.
pub proof fn law_started_server_is_shared(
    pools: Seq<PoolEntryView>,
    e: PoolEntryView,
    exited: Seq<u64>,
    rejected: Seq<u64>,
)
    requires
        !exited.contains(e.client),
        !rejected.contains(e.client),
    ensures
        usable(others_to(pools, e.key, e.processes, pools.len() as int).push(e), e.key, e.processes, exited, rejected) == Some(
            e.client,
        ),
{
    lemma_others(pools, e.key, e.processes, pools.len() as int);
    lemma_first_for_last(others_to(pools, e.key, e.processes, pools.len() as int), e);
}

/// What happens to the pools: a server is asked for, which forgets those that no one holds, or one
/// was started.
pub enum PoolStep {
    Asked(Seq<u64>),
    Started(PoolEntryView),
}

/// The pools after the first `n` steps.
pub open spec fn pooled(pools: Seq<PoolEntryView>, steps: Seq<PoolStep>, n: int) -> Seq<PoolEntryView>
    decreases n,
{
    if n <= 0 {
        pools
    } else {
        let before = pooled(pools, steps, n - 1);
        match steps[n - 1] {
            PoolStep::Asked(live) => held_to(before, live, before.len() as int),
            PoolStep::Started(e) => others_to(before, e.key, e.processes, before.len() as int).push(e),
        }
    }
}

/// The step leaves a server alone: it is held, and no other is started in its place.
pub open spec fn spares(step: PoolStep, key: SpawnKeyView, processes: usize, client: u64) -> bool {
    match step {
        PoolStep::Asked(live) => live.contains(client),
        PoolStep::Started(e) => !is_for(e, key, processes),
    }
}

/// The first entry for a key among the first `n`.
spec fn first_to(pools: Seq<PoolEntryView>, key: SpawnKeyView, processes: usize, n: int) -> Option<u64>
    decreases n,
{
    if n <= 0 {
        None
    } else {
        match first_to(pools, key, processes, n - 1) {
            Some(client) => Some(client),
            None => if is_for(pools[n - 1], key, processes) {
                Some(pools[n - 1].client)
            } else {
                None
            },
        }
    }
}

proof fn lemma_first_to_skip(pools: Seq<PoolEntryView>, key: SpawnKeyView, processes: usize, n: int)
    requires
        0 < n <= pools.len(),
    ensures
        first_to(pools, key, processes, n) == (if is_for(pools[0], key, processes) {
            Some(pools[0].client)
        } else {
            first_to(pools.drop_first(), key, processes, n - 1)
        }),
    decreases n,
{
    if n > 1 {
        lemma_first_to_skip(pools, key, processes, n - 1);
        assert(pools.drop_first()[n - 2] == pools[n - 1]);
    } else {
        assert(first_to(pools, key, processes, 0) is None);
        assert(first_to(pools.drop_first(), key, processes, 0) is None);
    }
}

proof fn lemma_first_to(pools: Seq<PoolEntryView>, key: SpawnKeyView, processes: usize)
    ensures
        first_to(pools, key, processes, pools.len() as int) == first_for(pools, key, processes),
    decreases pools.len(),
{
    if pools.len() > 0 {
        lemma_first_to_skip(pools, key, processes, pools.len() as int);
        lemma_first_to(pools.drop_first(), key, processes);
    }
}

proof fn lemma_first_pushed(pools: Seq<PoolEntryView>, e: PoolEntryView, key: SpawnKeyView, processes: usize, n: int)
    requires
        0 <= n <= pools.len(),
    ensures
        first_to(pools.push(e), key, processes, n) == first_to(pools, key, processes, n),
    decreases n,
{
    if n > 0 {
        lemma_first_pushed(pools, e, key, processes, n - 1);
    }
}

proof fn lemma_first_for_pushed(pools: Seq<PoolEntryView>, e: PoolEntryView, key: SpawnKeyView, processes: usize)
    ensures
        first_for(pools.push(e), key, processes) == (match first_for(pools, key, processes) {
            Some(client) => Some(client),
            None => if is_for(e, key, processes) {
                Some(e.client)
            } else {
                None
            },
        }),
{
    lemma_first_to(pools, key, processes);
    lemma_first_to(pools.push(e), key, processes);
    lemma_first_pushed(pools, e, key, processes, pools.len() as int);
}

proof fn lemma_first_stays(pools: Seq<PoolEntryView>, key: SpawnKeyView, processes: usize, n: int, m: int)
    requires
        0 <= n <= m <= pools.len(),
        first_to(pools, key, processes, n) is Some,
    ensures
        first_to(pools, key, processes, m) == first_to(pools, key, processes, n),
    decreases m - n,
{
    if m > n {
        lemma_first_stays(pools, key, processes, n, m - 1);
    }
}

proof fn lemma_first_held_to(pools: Seq<PoolEntryView>, live: Seq<u64>, key: SpawnKeyView, processes: usize, client: u64, n: int)
    requires
        0 <= n <= pools.len(),
        live.contains(client),
        first_to(pools, key, processes, pools.len() as int) == Some(client),
    ensures
        first_to(pools, key, processes, n) is Some ==> first_to(pools, key, processes, n) == Some(client),
        first_for(held_to(pools, live, n), key, processes) == first_to(pools, key, processes, n),
    decreases n,
{
    if first_to(pools, key, processes, n) is Some {
        lemma_first_stays(pools, key, processes, n, pools.len() as int);
    }
    if n > 0 {
        lemma_first_held_to(pools, live, key, processes, client, n - 1);
        lemma_first_for_pushed(held_to(pools, live, n - 1), pools[n - 1], key, processes);
    }
}

proof fn lemma_first_others(pools: Seq<PoolEntryView>, e: PoolEntryView, key: SpawnKeyView, processes: usize, n: int)
    requires
        0 <= n <= pools.len(),
        !is_for(e, key, processes),
    ensures
        first_for(others_to(pools, e.key, e.processes, n), key, processes) == first_to(pools, key, processes, n),
    decreases n,
{
    if n > 0 {
        lemma_first_others(pools, e, key, processes, n - 1);
        lemma_first_for_pushed(others_to(pools, e.key, e.processes, n - 1), pools[n - 1], key, processes);
    }
}

/// A server that is shared stays the shared one, whatever is asked for and started meanwhile, until
/// it exits, is rejected, or is let go of by everyone; only then another is started in its place.
pub proof fn law_shared_server_stays(
    pools: Seq<PoolEntryView>,
    steps: Seq<PoolStep>,
    n: int,
    key: SpawnKeyView,
    processes: usize,
    client: u64,
    exited: Seq<u64>,
    rejected: Seq<u64>,
)
    requires
        0 <= n <= steps.len(),
        first_for(pools, key, processes) == Some(client),
        forall|i: int| 0 <= i < steps.len() ==> spares(#[trigger] steps[i], key, processes, client),
        !exited.contains(client),
        !rejected.contains(client),
    ensures
        usable(pooled(pools, steps, n), key, processes, exited, rejected) == Some(client),
    decreases n,
{
    if n > 0 {
        law_shared_server_stays(pools, steps, n - 1, key, processes, client, exited, rejected);
        let before = pooled(pools, steps, n - 1);
        lemma_first_to(before, key, processes);
        assert(spares(steps[n - 1], key, processes, client));
        match steps[n - 1] {
            PoolStep::Asked(live) => {
                lemma_first_held_to(before, live, key, processes, client, before.len() as int);
            },
            PoolStep::Started(e) => {
                lemma_first_others(before, e, key, processes, before.len() as int);
                lemma_first_for_pushed(others_to(before, e.key, e.processes, before.len() as int), e, key, processes);
            },
        }
    }
}

/// Every server has a number of its own.
pub open spec fn numbers_apart(pools: Seq<PoolEntryView>) -> bool {
    forall|i: int, j: int| 0 <= i < j < pools.len() ==> (#[trigger] pools[i]).client != (#[trigger] pools[j]).client
}

pub open spec fn is_fresh(pools: Seq<PoolEntryView>, client: u64) -> bool {
    forall|i: int| 0 <= i < pools.len() ==> (#[trigger] pools[i]).client != client
}

proof fn lemma_others_apart(pools: Seq<PoolEntryView>, key: SpawnKeyView, processes: usize, n: int, client: u64)
    requires
        0 <= n <= pools.len(),
        numbers_apart(pools),
        is_fresh(pools, client),
    ensures
        numbers_apart(others_to(pools, key, processes, n)),
        is_fresh(others_to(pools, key, processes, n), client),
        forall|i: int|
            0 <= i < others_to(pools, key, processes, n).len() ==> exists|j: int|
                0 <= j < n && #[trigger] pools[j] == #[trigger] others_to(pools, key, processes, n)[i],
    decreases n,
{
    if n > 0 {
        lemma_others_apart(pools, key, processes, n - 1, client);
        let before = others_to(pools, key, processes, n - 1);
        let r = others_to(pools, key, processes, n);
        assert forall|i: int| 0 <= i < r.len() implies exists|j: int| 0 <= j < n && #[trigger] pools[j] == #[trigger] r[i] by {
            if i < before.len() {
                assert(r[i] == before[i]);
                let j = choose|j: int| 0 <= j < n - 1 && #[trigger] pools[j] == before[i];
                assert(pools[j] == r[i]);
            } else {
                assert(pools[n - 1] == r[i]);
            }
        }
        assert forall|i: int, j: int| 0 <= i < j < r.len() implies (#[trigger] r[i]).client != (#[trigger] r[j]).client by {
            assert(r[i] == before[i]);
            if j < before.len() {
                assert(r[j] == before[j]);
            } else {
                let x = choose|x: int| 0 <= x < n - 1 && #[trigger] pools[x] == before[i];
                assert(r[j] == pools[n - 1]);
                assert(pools[x].client != pools[n - 1].client);
            }
        }
        assert forall|i: int| 0 <= i < r.len() implies (#[trigger] r[i]).client != client by {
            if i < before.len() {
                assert(r[i] == before[i]);
            } else {
                assert(r[i] == pools[n - 1]);
            }
        }
    }
}

/// A server that is started anew is none of those that ran before: numbers stay apart.
pub proof fn law_started_server_is_another(pools: Seq<PoolEntryView>, e: PoolEntryView)
    requires
        numbers_apart(pools),
        is_fresh(pools, e.client),
    ensures
        numbers_apart(others_to(pools, e.key, e.processes, pools.len() as int).push(e)),
        first_for(pools, e.key, e.processes) != Some(e.client),
{
    lemma_others_apart(pools, e.key, e.processes, pools.len() as int, e.client);
    let before = others_to(pools, e.key, e.processes, pools.len() as int);
    let r = before.push(e);
    assert forall|i: int, j: int| 0 <= i < j < r.len() implies (#[trigger] r[i]).client != (#[trigger] r[j]).client by {
        assert(r[i] == before[i]);
        if j < before.len() {
            assert(r[j] == before[j]);
        }
    }
    lemma_first_known(pools, e.key, e.processes);
}

proof fn lemma_first_known(pools: Seq<PoolEntryView>, key: SpawnKeyView, processes: usize)
    ensures
        first_for(pools, key, processes) matches Some(client) ==> exists|i: int| 0 <= i < pools.len() && (#[trigger] pools[i]).client == client,
    decreases pools.len(),
{
    if pools.len() > 0 {
        if is_for(pools[0], key, processes) {
            assert(pools[0].client == pools[0].client);
        } else {
            lemma_first_known(pools.drop_first(), key, processes);
            match first_for(pools, key, processes) {
                Some(client) => {
                    let i = choose|i: int| 0 <= i < pools.drop_first().len() && (#[trigger] pools.drop_first()[i]).client == client;
                    assert(pools[i + 1].client == client);
                },
                None => {},
            }
        }
    }
}

proof fn lemma_first_for(pools: Seq<PoolEntryView>, key: SpawnKeyView, processes: usize)
    ensures
        match first_for(pools, key, processes) {
            None => forall|i: int| 0 <= i < pools.len() ==> !((#[trigger] pools[i]).key == key && pools[i].processes == processes),
            Some(client) => exists|i: int|
                0 <= i < pools.len() && (#[trigger] pools[i]).key == key && pools[i].processes == processes && pools[i].client == client
                    && forall|j: int| 0 <= j < i ==> !((#[trigger] pools[j]).key == key && pools[j].processes == processes),
        },
    decreases pools.len(),
{
    if pools.len() > 0 {
        let rest = pools.drop_first();
        if pools[0].key == key && pools[0].processes == processes {
            assert(pools[0].client == first_for(pools, key, processes)->0);
        } else {
            lemma_first_for(rest, key, processes);
            match first_for(pools, key, processes) {
                None => {
                    assert forall|i: int| 0 <= i < pools.len() implies !((#[trigger] pools[i]).key == key && pools[i].processes
                        == processes) by {
                        if i > 0 {
                            assert(rest[i - 1] == pools[i]);
                        }
                    }
                },
                Some(client) => {
                    let i = choose|i: int|
                        0 <= i < rest.len() && (#[trigger] rest[i]).key == key && rest[i].processes == processes && rest[i].client
                            == client && forall|j: int|
                            0 <= j < i ==> !((#[trigger] rest[j]).key == key && rest[j].processes == processes);
                    assert(pools[i + 1] == rest[i]);
                    assert forall|j: int| 0 <= j < i + 1 implies !((#[trigger] pools[j]).key == key && pools[j].processes
                        == processes) by {
                        if j > 0 {
                            assert(rest[j - 1] == pools[j]);
                        }
                    }
                },
            }
        }
    }
}

/// A server is shared only with workspaces that need the same one: it was started for the same key, that is
/// the same executable, toolchain and environment, and with as many processes, it runs, and it is not
/// rejected. Where the first that was started so runs and is not rejected, it is shared.
pub proof fn law_servers_are_shared_by_key(
    pools: Seq<PoolEntryView>,
    key: SpawnKeyView,
    processes: usize,
    exited: Seq<u64>,
    rejected: Seq<u64>,
)
    ensures
        usable(pools, key, processes, exited, rejected) matches Some(client) ==> !exited.contains(client) && !rejected.contains(client)
            && exists|i: int|
            0 <= i < pools.len() && (#[trigger] pools[i]).key == key && pools[i].processes == processes && pools[i].client == client
                && forall|j: int| 0 <= j < i ==> !((#[trigger] pools[j]).key == key && pools[j].processes == processes),
        forall|i: int|
            0 <= i < pools.len() && (#[trigger] pools[i]).key == key && pools[i].processes == processes && (forall|j: int|
                0 <= j < i ==> !((#[trigger] pools[j]).key == key && pools[j].processes == processes)) && !exited.contains(
                pools[i].client,
            ) && !rejected.contains(pools[i].client) ==> usable(pools, key, processes, exited, rejected) == Some(pools[i].client),
{
    lemma_first_for(pools, key, processes);
}

/// The servers that are remembered are those that someone holds, in their order, and a server that is started
/// takes the place of those for its key and number of processes, and of no others.
pub proof fn law_held_servers_are_remembered(pools: Seq<PoolEntryView>, live: Seq<u64>, key: SpawnKeyView, processes: usize, n: int)
    requires
        0 <= n <= pools.len(),
    ensures
        held_to(pools, live, n) == pools.take(n).filter(|e: PoolEntryView| live.contains(e.client)),
        others_to(pools, key, processes, n) == pools.take(n).filter(
            |e: PoolEntryView| !(e.key == key && e.processes == processes),
        ),
    decreases n,
{
    reveal(Seq::filter);
    if n > 0 {
        law_held_servers_are_remembered(pools, live, key, processes, n - 1);
        assert(pools.take(n).drop_last() =~= pools.take(n - 1));
    } else {
        assert(pools.take(0) =~= Seq::<PoolEntryView>::empty());
    }
}

} // verus!
