//! A reload of all of a session's workspaces: whose turn it runs in, and which macro servers it
//! must not use again.
use crate::base::{ClientView, SharedProcMacroClient};
use crate::keys::SharedAnalyzerBackendKey;
use crate::operations::SharedAnalyzerOperationToken;
use crate::registry::{loads_in, SharedAnalyzerRegistry};
use crate::spawn::contains_key;
use crate::spawn_key::{ProcMacroSpawnKey, SpawnKeyView};
use crate::tokens::Tokens;
use vstd::prelude::*;

verus! {

/// The operation of a reload, and whether it was under way before.
#[derive(Clone, Copy, Debug, PartialEq, Eq, Structural)]
pub struct ReloadTurn {
    pub operation: u64,
    pub continued: bool,
}

impl SharedAnalyzerRegistry {
    /// The operation in whose turn workspaces are reloaded: that of a token, carried on, or else a
    /// new one.
    pub fn begin_reload_workspaces(
        &mut self,
        key: &SharedAnalyzerBackendKey,
        continuation: Option<SharedAnalyzerOperationToken>,
    ) -> (r: ReloadTurn)
        requires
            old(self)@.wf(),
            old(self)@.operations.next < u64::MAX,
            continuation matches Some(t) ==> t.generation < u64::MAX,
        ensures
            final(self)@.wf(),
            r.continued == (continuation matches Some(t) && t.operation matches Some(id) && !old(self)@.operations.finished(id)
                && old(self)@.operations.at_front(key@, id) && old(self)@.operations.records[id].generation == t.generation),
            r.continued ==> continuation->0.operation == Some(r.operation) && final(self)@ == old(self)@.with_operations(
                old(self)@.operations.with_record(
                    r.operation,
                    (crate::operations::ReloadView {
                        generation: (continuation->0.generation + 1) as u64,
                        ..old(self)@.operations.records[r.operation]
                    }),
                ),
            ),
            !r.continued ==> r.operation == old(self)@.operations.next && final(self)@ == old(self)@.with_operations(
                old(self)@.operations.enqueued(key@, loads_in(old(self)@, key@.shared_world)),
            ),
    {
        match self.reload_continuation(key, continuation) {
            Some(operation) => ReloadTurn { operation, continued: true },
            None => {
                let operation = self.enqueue_operation(key.duplicate());
                ReloadTurn { operation, continued: false }
            },
        }
    }

    /// The end of a reload. A failure ends an operation that was begun for it, and one that was
    /// carried on stays. The result is the operation that the session has to end.
    pub fn finish_reload_workspaces(
        &mut self,
        key: &SharedAnalyzerBackendKey,
        turn: ReloadTurn,
        error: Option<String>,
    ) -> (r: Option<u64>)
        requires
            old(self)@.wf(),
        ensures
            final(self)@.wf(),
            r == (if error is None && !turn.continued {
                Some(turn.operation)
            } else {
                None
            }),
            ({
                let ops = old(self)@.operations;
                final(self)@ == (if error is Some && !turn.continued && ops.at_front(key@, turn.operation) {
                    old(self)@.with_operations(
                        ops.closed_record(
                            turn.operation,
                            crate::operations::ResultView::Failed(error->0@),
                        ).with_queue(key@.shared_world, ops.queue(key@.shared_world).drop_first()),
                    )
                } else {
                    old(self)@
                })
            }),
    {
        match error {
            Some(error) => {
                if !turn.continued {
                    self.finish_operation(key, turn.operation, Err(error));
                }
                None
            },
            None => if turn.continued {
                None
            } else {
                Some(turn.operation)
            },
        }
    }
}

/// The servers among the first `n` that run under one of some keys.
pub open spec fn under_keys(clients: Seq<ClientView>, keys: Seq<SpawnKeyView>, n: int) -> Seq<u64>
    decreases n,
{
    if n <= 0 {
        Seq::empty()
    } else if keys.contains(clients[n - 1].key) {
        under_keys(clients, keys, n - 1).push(clients[n - 1].client)
    } else {
        under_keys(clients, keys, n - 1)
    }
}

/// The keys of the servers that a reload is about, and the servers that it must not use again.
pub struct ReloadServers {
    pub keys: Vec<ProcMacroSpawnKey>,
    pub rejected: Vec<u64>,
}

pub open spec fn all_under(clients: Seq<ClientView>, keys: Seq<SpawnKeyView>) -> Seq<u64> {
    under_keys(clients, keys, clients.len() as int)
}

fn servers_under(clients: &Vec<SharedProcMacroClient>, keys: &Vec<ProcMacroSpawnKey>) -> (r: Vec<u64>)
    ensures
        r@ == all_under(clients@.map_values(|c: SharedProcMacroClient| c@), keys.deep_view()),
{
    let ghost views = clients@.map_values(|c: SharedProcMacroClient| c@);
    let mut r: Vec<u64> = Vec::new();
    let mut i: usize = 0;
    while i < clients.len()
        invariant
            i <= clients.len(),
            views == clients@.map_values(|c: SharedProcMacroClient| c@),
            r@ == under_keys(views, keys.deep_view(), i as int),
        decreases clients.len() - i,
    {
        proof {
            assert(views[i as int] == clients@[i as int]@);
        }
        if contains_key(keys, &clients[i].key) {
            r.push(clients[i].client);
        }
        i = i + 1;
    }
    r
}

impl ReloadServers {
    /// The servers of the workspaces as they are.
    pub fn new(keys: Vec<ProcMacroSpawnKey>, clients: &Vec<SharedProcMacroClient>) -> (r: Self)
        ensures
            r.keys == keys,
            r.rejected@ == all_under(clients@.map_values(|c: SharedProcMacroClient| c@), keys.deep_view()),
    {
        let rejected = servers_under(clients, &keys);
        ReloadServers { keys, rejected }
    }

    /// A workspace, as it was loaded again, asks for a server: one that is new to the reload joins
    /// it.
    pub fn join(&mut self, key: Option<Result<ProcMacroSpawnKey, String>>, clients: &Vec<SharedProcMacroClient>)
        ensures
            match key {
                Some(Ok(key)) => {
                    let known = old(self).keys.deep_view().contains(key.deep_view());
                    &&& final(self).keys.deep_view() == (if known {
                        old(self).keys.deep_view()
                    } else {
                        old(self).keys.deep_view().push(key.deep_view())
                    })
                    &&& final(self).rejected@ == (if known {
                        old(self).rejected@
                    } else {
                        old(self).rejected@ + all_under(
                            clients@.map_values(|c: SharedProcMacroClient| c@),
                            seq![key.deep_view()],
                        )
                    })
                },
                _ => final(self).keys == old(self).keys && final(self).rejected == old(self).rejected,
            },
    {
        match key {
            Some(Ok(key)) => {
                if !contains_key(&self.keys, &key) {
                    let ghost view = key.deep_view();
                    let mut own: Vec<ProcMacroSpawnKey> = Vec::new();
                    own.push(key);
                    proof {
                        assert(own.deep_view() =~= seq![view]);
                    }
                    let mut more = servers_under(clients, &own);
                    self.rejected.append(&mut more);
                    match own.pop() {
                        Some(key) => {
                            self.keys.push(key);
                        },
                        None => {},
                    }
                    proof {
                        assert(self.keys.deep_view() =~= old(self).keys.deep_view().push(view));
                    }
                }
            },
            _ => {},
        }
    }
}

/// A reload uses none of the servers that ran under its keys before: it starts them anew.
pub proof fn law_reload_starts_servers_anew(clients: Seq<ClientView>, keys: Seq<SpawnKeyView>, i: int)
    requires
        0 <= i < clients.len(),
        keys.contains(clients[i].key),
    ensures
        all_under(clients, keys).contains(clients[i].client),
{
    lemma_under(clients, keys, i, clients.len() as int);
}

proof fn lemma_under(clients: Seq<ClientView>, keys: Seq<SpawnKeyView>, i: int, n: int)
    requires
        0 <= i < n <= clients.len(),
        keys.contains(clients[i].key),
    ensures
        under_keys(clients, keys, n).contains(clients[i].client),
    decreases n,
{
    let before = under_keys(clients, keys, n - 1);
    let after = under_keys(clients, keys, n);
    if i == n - 1 {
        assert(after[before.len() as int] == clients[i].client);
    } else {
        lemma_under(clients, keys, i, n - 1);
        let k = before.index_of(clients[i].client);
        assert(after[k] == clients[i].client);
    }
}

/// A reload turns away no other servers than those that run under its keys.
pub proof fn law_other_servers_are_kept(clients: Seq<ClientView>, keys: Seq<SpawnKeyView>, client: u64)
    ensures
        all_under(clients, keys).contains(client) ==> exists|i: int|
            0 <= i < clients.len() && (#[trigger] clients[i]).client == client && keys.contains(clients[i].key),
{
    lemma_only_under(clients, keys, clients.len() as int, client);
}

proof fn lemma_only_under(clients: Seq<ClientView>, keys: Seq<SpawnKeyView>, n: int, client: u64)
    requires
        0 <= n <= clients.len(),
    ensures
        under_keys(clients, keys, n).contains(client) ==> exists|i: int|
            0 <= i < n && (#[trigger] clients[i]).client == client && keys.contains(clients[i].key),
    decreases n,
{
    if n > 0 {
        lemma_only_under(clients, keys, n - 1, client);
        let before = under_keys(clients, keys, n - 1);
        let r = under_keys(clients, keys, n);
        if r.contains(client) && !before.contains(client) {
            let at = r.index_of(client);
            if at < before.len() {
                assert(before[at] == client);
            }
            assert(clients[n - 1].client == client);
        }
    }
}

} // verus!
