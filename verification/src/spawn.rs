//! Which macro server a workspace uses, and which servers are shared.
use crate::base::{FactsView, ProcMacroFacts};
use crate::config::ProcMacroServerChoice;
use crate::ordered::{lemma_sorted_keys, listed, sorted_keys, OrderedMap};
use crate::spawn_key::{ProcMacroSpawnKey, SpawnKeyView};
use crate::tokens::{same, Tokens};
use vstd::prelude::*;

verus! {

/// What a configuration says about macro servers, and whether the process itself was started with
/// `RUSTUP_TOOLCHAIN` set.
#[derive(Debug)]
pub struct SpawnConfig {
    pub server: ProcMacroServerChoice,
    pub extra_env: Vec<(String, Option<String>)>,
    pub has_rustup_toolchain: bool,
}

pub enum ChoiceView {
    Disabled,
    Sysroot,
    Explicit(Seq<char>),
}

#[verifier::ext_equal]
pub struct SpawnConfigView {
    pub server: ChoiceView,
    pub extra_env: Seq<(Seq<char>, Option<Seq<char>>)>,
    pub has_rustup_toolchain: bool,
}

impl View for SpawnConfig {
    type V = SpawnConfigView;

    open spec fn view(&self) -> SpawnConfigView {
        SpawnConfigView {
            server: match self.server {
                ProcMacroServerChoice::Disabled => ChoiceView::Disabled,
                ProcMacroServerChoice::Sysroot => ChoiceView::Sysroot,
                ProcMacroServerChoice::Explicit(path) => ChoiceView::Explicit(path@),
            },
            extra_env: self.extra_env.deep_view(),
            has_rustup_toolchain: self.has_rustup_toolchain,
        }
    }
}

pub open spec fn toolchain_variable() -> Seq<char> {
    "RUSTUP_TOOLCHAIN"@
}

/// The variables with those of the first `n` entries: of two with one name the later counts.
pub open spec fn with_variables(
    m: Map<Seq<char>, Option<Seq<char>>>,
    list: Seq<(Seq<char>, Option<Seq<char>>)>,
    n: int,
) -> Map<Seq<char>, Option<Seq<char>>>
    decreases n,
{
    if n <= 0 {
        m
    } else {
        with_variables(m, list, n - 1).insert(list[n - 1].0, list[n - 1].1)
    }
}

pub open spec fn names(list: Seq<(Seq<char>, Option<Seq<char>>)>, name: Seq<char>) -> bool {
    exists|i: int| 0 <= i < list.len() && (#[trigger] list[i]).0 == name
}

pub open spec fn set_variables(list: Seq<(Seq<char>, Seq<char>)>) -> Seq<(Seq<char>, Option<Seq<char>>)> {
    list.map_values(|v: (Seq<char>, Seq<char>)| (v.0, Some(v.1)))
}

/// The environment of a workspace's macro server: Cargo's variables, then the configured ones, and
/// the toolchain of the sysroot unless a toolchain is set already. Without Cargo it is empty.
pub open spec fn spawn_env(facts: FactsView, config: SpawnConfigView) -> Map<Seq<char>, Option<Seq<char>>> {
    match facts.cargo_env {
        None => Map::empty(),
        Some(list) => {
            let own = with_variables(Map::empty(), set_variables(list), list.len() as int);
            let all = with_variables(own, config.extra_env, config.extra_env.len() as int);
            match facts.sysroot_root {
                Some(root) => if !names(config.extra_env, toolchain_variable()) && !config.has_rustup_toolchain {
                    all.insert(toolchain_variable(), Some(root))
                } else {
                    all
                },
                None => all,
            }
        },
    }
}

/// The variables by ascending name.
pub open spec fn variable_list(m: Map<Seq<char>, Option<Seq<char>>>) -> Seq<(Seq<char>, Option<Seq<char>>)> {
    sorted_keys::<String>(m.dom()).map_values(|k: Seq<char>| (k, m[k]))
}

/// The server that a workspace asks for: the configured one, or that of its sysroot. There is none
/// where servers are disabled or the workspace has no sysroot, and an error where the sysroot's
/// server cannot be found.
pub open spec fn spawn_key(facts: FactsView, config: SpawnConfigView) -> Option<Result<SpawnKeyView, Seq<char>>> {
    let path: Option<Result<Seq<char>, Seq<char>>> = match config.server {
        ChoiceView::Disabled => None,
        ChoiceView::Sysroot => facts.sysroot_server,
        ChoiceView::Explicit(path) => Some(Ok(path)),
    };
    match path {
        None => None,
        Some(Err(error)) => Some(Err(error)),
        Some(Ok(path)) => Some(
            Ok(SpawnKeyView { path, toolchain: facts.toolchain, env: variable_list(spawn_env(facts, config)) }),
        ),
    }
}

pub open spec fn key_view(key: Option<Result<ProcMacroSpawnKey, String>>) -> Option<Result<SpawnKeyView, Seq<char>>> {
    match key {
        Some(Ok(key)) => Some(Ok(key.deep_view())),
        Some(Err(error)) => Some(Err(error@)),
        None => None,
    }
}

pub open spec fn env_view(m: Map<Seq<char>, Option<String>>) -> Map<Seq<char>, Option<Seq<char>>> {
    m.map_values(|v: Option<String>| v.deep_view())
}

fn put_variables(m: &mut OrderedMap<String, Option<String>>, list: &Vec<(String, Option<String>)>)
    ensures
        env_view(final(m)@) == with_variables(env_view(old(m)@), list.deep_view(), list@.len() as int),
{
    let ghost start = env_view(m@);
    let ghost all = list.deep_view();
    let mut i: usize = 0;
    proof {
        assert(all.len() == list@.len());
    }
    while i < list.len()
        invariant
            i <= list.len(),
            all == list.deep_view(),
            all.len() == list@.len(),
            env_view(m@) == with_variables(start, all, i as int),
        decreases list.len() - i,
    {
        let value = list[i].1.duplicate();
        let ghost before = env_view(m@);
        proof {
            assert(all[i as int] == (list@[i as int].0@, list@[i as int].1.deep_view()));
        }
        m.insert(list[i].0.clone(), value);
        proof {
            assert(env_view(m@) =~= before.insert(all[i as int].0, all[i as int].1));
        }
        i = i + 1;
    }
}

fn names_variable(list: &Vec<(String, Option<String>)>, name: &String) -> (r: bool)
    ensures
        r == names(list.deep_view(), name@),
{
    let ghost all = list.deep_view();
    let mut i: usize = 0;
    proof {
        assert(all.len() == list@.len());
    }
    while i < list.len()
        invariant
            i <= list.len(),
            all == list.deep_view(),
            all.len() == list@.len(),
            forall|j: int| 0 <= j < i ==> (#[trigger] all[j]).0 != name@,
        decreases list.len() - i,
    {
        proof {
            assert(all[i as int].0 == list@[i as int].0@);
        }
        if list[i].0 == *name {
            return true;
        }
        i = i + 1;
    }
    false
}

/// The environment of a workspace's macro server.
fn server_env(facts: &ProcMacroFacts, config: &SpawnConfig) -> (r: OrderedMap<String, Option<String>>)
    ensures
        env_view(r@) == spawn_env(facts@, config@),
{
    let mut env: OrderedMap<String, Option<String>> = OrderedMap::new();
    proof {
        assert(env_view(env@) =~= Map::empty());
    }
    match &facts.cargo_env {
        Some(list) => {
            let ghost all = list.deep_view();
            let ghost own = set_variables(all);
            let mut i: usize = 0;
            proof {
                assert(all.len() == list@.len());
                assert(facts@.cargo_env == Some(all));
            }
            while i < list.len()
                invariant
                    i <= list.len(),
                    all == list.deep_view(),
                    all.len() == list@.len(),
                    own == set_variables(all),
                    env_view(env@) == with_variables(Map::empty(), own, i as int),
                decreases list.len() - i,
            {
                let ghost before = env_view(env@);
                proof {
                    assert(all[i as int] == (list@[i as int].0@, list@[i as int].1@));
                }
                env.insert(list[i].0.clone(), Some(list[i].1.clone()));
                proof {
                    assert(env_view(env@) =~= before.insert(own[i as int].0, own[i as int].1));
                }
                i = i + 1;
            }
            put_variables(&mut env, &config.extra_env);
            match &facts.sysroot_root {
                Some(root) => {
                    let variable = String::from_str("RUSTUP_TOOLCHAIN");
                    if !names_variable(&config.extra_env, &variable) && !config.has_rustup_toolchain {
                        let ghost before = env_view(env@);
                        env.insert(variable, Some(root.clone()));
                        proof {
                            assert(env_view(env@) =~= before.insert(toolchain_variable(), Some(root@)));
                        }
                    }
                },
                None => {},
            }
        },
        None => {},
    }
    env
}

fn list_variables(m: &OrderedMap<String, Option<String>>) -> (r: Vec<(String, Option<String>)>)
    ensures
        r.deep_view() == variable_list(env_view(m@)),
{
    let n = m.len();
    let ghost env = env_view(m@);
    let ghost want = variable_list(env);
    let mut r: Vec<(String, Option<String>)> = Vec::new();
    let mut i: usize = 0;
    proof {
        lemma_sorted_keys(*m);
        assert(env.dom() =~= m@.dom());
        assert(r.deep_view() =~= want.take(0));
    }
    while i < n
        invariant
            i <= n,
            n == m.keys().len(),
            listed(*m),
            env == env_view(m@),
            want == variable_list(env),
            m.keys() == sorted_keys::<String>(env.dom()),
            r.deep_view() == want.take(i as int),
        decreases n - i,
    {
        let key = m.key_at(i);
        let value = m.value_at(i).duplicate();
        let ghost before = r.deep_view();
        proof {
            assert(m@.contains_key(m.keys()[i as int]));
            assert(env[key@] == value.deep_view());
        }
        r.push((key.clone(), value));
        proof {
            assert(r.deep_view() =~= before.push((key@, env[key@])));
            assert(r.deep_view() =~= want.take(i + 1));
        }
        i = i + 1;
    }
    proof {
        assert(want.take(n as int) =~= want);
    }
    r
}

/// The server that a workspace asks for.
pub fn proc_macro_spawn_key(facts: &ProcMacroFacts, config: &SpawnConfig) -> (r: Option<Result<ProcMacroSpawnKey, String>>)
    ensures
        key_view(r) == spawn_key(facts@, config@),
{
    let path: String = match &config.server {
        ProcMacroServerChoice::Disabled => {
            return None;
        },
        ProcMacroServerChoice::Sysroot => match &facts.sysroot_server {
            None => {
                return None;
            },
            Some(Err(error)) => {
                return Some(Err(error.clone()));
            },
            Some(Ok(path)) => path.clone(),
        },
        ProcMacroServerChoice::Explicit(path) => path.clone(),
    };
    let env = server_env(facts, config);
    Some(Ok(ProcMacroSpawnKey { path, toolchain: facts.toolchain.duplicate(), env: list_variables(&env) }))
}

/// Whether a key is in a list.
pub fn contains_key(keys: &Vec<ProcMacroSpawnKey>, key: &ProcMacroSpawnKey) -> (r: bool)
    ensures
        r == keys.deep_view().contains(key.deep_view()),
{
    let ghost all = keys.deep_view();
    let mut i: usize = 0;
    proof {
        assert(all.len() == keys@.len());
    }
    while i < keys.len()
        invariant
            i <= keys.len(),
            all == keys.deep_view(),
            all.len() == keys@.len(),
            forall|j: int| 0 <= j < i ==> #[trigger] all[j] != key.deep_view(),
        decreases keys.len() - i,
    {
        proof {
            assert(all[i as int] == keys@[i as int].deep_view());
        }
        if same(&keys[i], key) {
            return true;
        }
        i = i + 1;
    }
    false
}

/// The list with a key, which is not listed twice.
pub open spec fn with_key(keys: Seq<SpawnKeyView>, key: SpawnKeyView) -> Seq<SpawnKeyView> {
    if keys.contains(key) {
        keys
    } else {
        keys.push(key)
    }
}

/// The list with the key that a workspace asks for, if it asks for one.
pub open spec fn with_asked(keys: Seq<SpawnKeyView>, key: Option<Result<SpawnKeyView, Seq<char>>>) -> Seq<SpawnKeyView> {
    match key {
        Some(Ok(key)) => with_key(keys, key),
        _ => keys,
    }
}

pub fn push_key(keys: &mut Vec<ProcMacroSpawnKey>, key: ProcMacroSpawnKey)
    ensures
        final(keys).deep_view() == with_key(old(keys).deep_view(), key.deep_view()),
{
    let ghost before = keys.deep_view();
    if !contains_key(keys, &key) {
        let ghost view = key.deep_view();
        keys.push(key);
        proof {
            assert(keys.deep_view() =~= before.push(view));
        }
    }
}

pub fn push_asked(keys: &mut Vec<ProcMacroSpawnKey>, key: Option<Result<ProcMacroSpawnKey, String>>)
    ensures
        final(keys).deep_view() == with_asked(old(keys).deep_view(), key_view(key)),
{
    match key {
        Some(Ok(key)) => {
            push_key(keys, key);
        },
        _ => {},
    }
}

/// Workspaces that ask for the same server executable under the same toolchain, with the same Cargo
/// and configured variables and no sysroot toolchain to add, share a server.
pub proof fn law_same_facts_share_a_server(a: FactsView, b: FactsView, config: SpawnConfigView)
    requires
        a.sysroot_server == b.sysroot_server,
        a.toolchain == b.toolchain,
        a.cargo_env == b.cargo_env,
        a.sysroot_root == b.sysroot_root || names(config.extra_env, toolchain_variable()) || config.has_rustup_toolchain,
    ensures
        spawn_key(a, config) == spawn_key(b, config),
{
    assert(spawn_env(a, config) =~= spawn_env(b, config));
}

/// The server is the one that the configuration chooses: none where servers are disabled, a named
/// executable as it is named, and else that of the sysroot, which may be missing or not to be found.
/// It runs under the toolchain of the workspace.
pub proof fn law_server_follows_the_choice(facts: FactsView, config: SpawnConfigView)
    ensures
        config.server is Disabled ==> spawn_key(facts, config) is None,
        config.server matches ChoiceView::Explicit(path) ==> (spawn_key(facts, config) matches Some(Ok(key)) && key.path == path),
        config.server is Sysroot ==> match facts.sysroot_server {
            None => spawn_key(facts, config) is None,
            Some(Err(error)) => spawn_key(facts, config) == Some(Err::<SpawnKeyView, Seq<char>>(error)),
            Some(Ok(path)) => spawn_key(facts, config) matches Some(Ok(key)) && key.path == path,
        },
        spawn_key(facts, config) matches Some(Ok(key)) ==> key.toolchain == facts.toolchain,
{
}

proof fn lemma_with_variables(
    m: Map<Seq<char>, Option<Seq<char>>>,
    list: Seq<(Seq<char>, Option<Seq<char>>)>,
    n: int,
    name: Seq<char>,
)
    requires
        0 <= n <= list.len(),
    ensures
        (forall|i: int| 0 <= i < n ==> (#[trigger] list[i]).0 != name) ==> with_variables(m, list, n).contains_key(name)
            == m.contains_key(name) && (m.contains_key(name) ==> with_variables(m, list, n)[name] == m[name]),
        forall|i: int|
            0 <= i < n && (#[trigger] list[i]).0 == name && (forall|j: int| i < j < n ==> (#[trigger] list[j]).0 != name)
                ==> with_variables(m, list, n).contains_key(name) && with_variables(m, list, n)[name] == list[i].1,
    decreases n,
{
    if n > 0 {
        lemma_with_variables(m, list, n - 1, name);
    }
}

/// A variable of a server's environment is what the configuration sets it to, by its last entry for the
/// name.
pub proof fn law_configured_variables_win(facts: FactsView, config: SpawnConfigView, i: int)
    requires
        facts.cargo_env is Some,
        0 <= i < config.extra_env.len(),
        forall|j: int| i < j < config.extra_env.len() ==> (#[trigger] config.extra_env[j]).0 != config.extra_env[i].0,
    ensures
        spawn_env(facts, config).contains_key(config.extra_env[i].0),
        spawn_env(facts, config)[config.extra_env[i].0] == config.extra_env[i].1,
{
    let list = facts.cargo_env->0;
    let name = config.extra_env[i].0;
    let own = with_variables(Map::empty(), set_variables(list), list.len() as int);
    lemma_with_variables(own, config.extra_env, config.extra_env.len() as int, name);
    if name == toolchain_variable() {
        assert(names(config.extra_env, name));
    }
}

/// A variable that the configuration does not set is what Cargo sets it to, by its last entry for the
/// name, and is not there where Cargo does not set it either. The toolchain is set to that of the
/// sysroot, where there is one and neither the configuration nor the process sets it.
pub proof fn law_other_variables_are_those_of_cargo(facts: FactsView, config: SpawnConfigView, name: Seq<char>)
    requires
        forall|j: int| 0 <= j < config.extra_env.len() ==> (#[trigger] config.extra_env[j]).0 != name,
    ensures
        facts.cargo_env is None ==> !spawn_env(facts, config).contains_key(name),
        facts.cargo_env matches Some(list) ==> {
            let env = spawn_env(facts, config);
            if name == "RUSTUP_TOOLCHAIN"@ && facts.sysroot_root is Some && !config.has_rustup_toolchain {
                env.contains_key(name) && env[name] == facts.sysroot_root
            } else {
                &&& (forall|i: int| 0 <= i < list.len() ==> (#[trigger] list[i]).0 != name) ==> !env.contains_key(name)
                &&& forall|i: int|
                    0 <= i < list.len() && (#[trigger] list[i]).0 == name && (forall|j: int|
                        i < j < list.len() ==> (#[trigger] list[j]).0 != name) ==> env.contains_key(name) && env[name] == Some(
                        list[i].1,
                    )
            }
        },
{
    if facts.cargo_env is Some {
        let list = facts.cargo_env->0;
        let set = set_variables(list);
        let own = with_variables(Map::empty(), set, list.len() as int);
        lemma_with_variables(own, config.extra_env, config.extra_env.len() as int, name);
        lemma_with_variables(Map::empty(), set, list.len() as int, name);
        assert forall|i: int| 0 <= i < list.len() implies (#[trigger] set[i]).0 == list[i].0 && set[i].1 == Some(list[i].1) by {}
        assert(!names(config.extra_env, name));
        assert forall|i: int|
            0 <= i < list.len() && (#[trigger] list[i]).0 == name && (forall|j: int|
                i < j < list.len() ==> (#[trigger] list[j]).0 != name) implies own.contains_key(name) && own[name] == Some(
            list[i].1,
        ) by {
            assert(set[i].0 == name);
            assert forall|j: int| i < j < set.len() implies (#[trigger] set[j]).0 != name by {
                assert(list[j].0 != name);
            }
        }
    }
}

} // verus!
