//! From a session's settings to the keys under which it shares state.
use crate::keys::{
    CargoConfigKeyView, DatabaseConfigKeyView, LoadKeyView, ProcMacroServerKeyView, SharedAnalyzerBackendKey,
    SharedAnalyzerCargoConfigKey, SharedAnalyzerDatabaseConfigKey, SharedAnalyzerLoadKey,
    SharedAnalyzerProcMacroServerKey, SharedAnalyzerViewKey, SharedAnalyzerWorldKey, ViewKeyView, WorldKeyView,
};
use crate::ordered::{ascending, OrderedMap};
use crate::tokens::{
    lemma_sorted_unique, lemma_strictly_sorted_unique, sort, sorted, sorted_unique, strictly_sorted, Tokens,
};
use vstd::prelude::*;

verus! {

/// A project that a session has linked or discovered: a manifest by its path, or an inline project
/// description by its printed form.
#[derive(Debug)]
pub enum LinkedProject {
    ProjectManifest(String),
    InlineProjectJson(String),
}

/// The Cargo settings of a session, the structured ones in printed form. The environment comes in
/// no particular order.
#[derive(Debug)]
pub struct CargoSettings {
    pub all_targets: bool,
    pub features: String,
    pub target: Option<String>,
    pub sysroot: Option<String>,
    pub sysroot_src: Option<String>,
    pub rustc_source: Option<String>,
    pub extra_includes: Vec<String>,
    pub cfg_overrides: String,
    pub wrap_rustc_in_build_scripts: bool,
    pub invocation_strategy: String,
    pub run_build_script_command: String,
    pub extra_args: Vec<String>,
    pub extra_env: Vec<(String, Option<String>)>,
    pub target_dir_config: String,
    pub set_test: bool,
    pub no_deps: bool,
    pub metadata_extra_args: Vec<String>,
}

/// The settings of one session.
#[derive(Debug)]
pub struct AnalyzerSettings {
    pub excluded: Vec<String>,
    pub projects: Vec<LinkedProject>,
    /// The manifest path of each detached file, or nothing where the file has no directory.
    pub detached_files: Vec<Option<String>>,
    pub cargo: CargoSettings,
    pub lru_parse_query_capacity: Option<u16>,
    pub lru_query_capacities: Option<Vec<(String, u16)>>,
    pub expand_proc_attr_macros: bool,
    pub run_build_scripts: bool,
    pub expand_proc_macros: bool,
    pub proc_macro_srv: Option<String>,
    pub ignored_proc_macros: Vec<(String, Vec<String>)>,
    pub proc_macro_num_processes: usize,
    pub prefill_caches: bool,
    pub prime_caches_num_threads: usize,
}

/// Where a workspace is loaded from.
#[derive(Debug)]
pub enum SharedAnalyzerWorkspaceLoadSource {
    ManifestProject(String),
    JsonProject(String),
    DetachedFile(String),
}

#[derive(Debug)]
pub struct SharedLoadConfig {
    pub key: SharedAnalyzerLoadKey,
    pub prefill_caches: bool,
    pub num_worker_threads: usize,
}

#[derive(Debug)]
pub enum ProcMacroServerChoice {
    Disabled,
    Sysroot,
    Explicit(String),
}

/// What the loader is told.
#[derive(Debug)]
pub struct LoadCargoConfig {
    pub load_out_dirs_from_check: bool,
    pub with_proc_macro_server: ProcMacroServerChoice,
    pub prefill_caches: bool,
    pub num_worker_threads: usize,
    pub proc_macro_processes: usize,
}

#[derive(Clone, Copy, Debug, PartialEq, Eq, Structural)]
pub enum ConfigError {
    /// More macro server processes than can be counted.
    TooManyProcMacroProcesses,
}

/// A session's settings as its runtime keeps them.
#[derive(Debug)]
pub struct SharedAnalyzerConfig {
    pub excluded_paths: Vec<String>,
    pub projects: Vec<LinkedProject>,
    pub detached_files: Vec<String>,
    pub cargo_config: CargoSettings,
    pub load: SharedLoadConfig,
}

pub open spec fn project_key(project: LinkedProject) -> Seq<char> {
    match project {
        LinkedProject::ProjectManifest(manifest) => "manifest:"@ + manifest@,
        LinkedProject::InlineProjectJson(json) => "json:"@ + json@,
    }
}

pub open spec fn detached_file_key(file: Seq<char>) -> Seq<char> {
    "detached:"@ + file
}

fn prefixed(prefix: &str, text: &String) -> (r: String)
    ensures
        r@ == prefix@ + text@,
{
    let mut r = String::from_str(prefix);
    r.append(text.as_str());
    r
}

/// The key of a project.
pub fn shared_project_key(project: &LinkedProject) -> (r: String)
    ensures
        r@ == project_key(*project),
{
    match project {
        LinkedProject::ProjectManifest(manifest) => prefixed("manifest:", manifest),
        LinkedProject::InlineProjectJson(json) => prefixed("json:", json),
    }
}

/// The key of a detached file.
pub fn shared_detached_file_key(file: &String) -> (r: String)
    ensures
        r@ == detached_file_key(file@),
{
    prefixed("detached:", file)
}

/// The Cargo key of some settings: the settings, with the environment sorted.
pub open spec fn is_cargo_key(config: CargoSettings, key: CargoConfigKeyView) -> bool {
    &&& key.all_targets == config.all_targets
    &&& key.features == config.features@
    &&& key.target == config.target.deep_view()
    &&& key.sysroot == config.sysroot.deep_view()
    &&& key.sysroot_src == config.sysroot_src.deep_view()
    &&& key.rustc_source == config.rustc_source.deep_view()
    &&& key.extra_includes == config.extra_includes.deep_view()
    &&& key.cfg_overrides == config.cfg_overrides@
    &&& key.wrap_rustc_in_build_scripts == config.wrap_rustc_in_build_scripts
    &&& key.invocation_strategy == config.invocation_strategy@
    &&& key.run_build_script_command == config.run_build_script_command@
    &&& key.extra_args == config.extra_args.deep_view()
    &&& sorted::<(String, Option<String>)>(key.extra_env)
    &&& key.extra_env.to_multiset() == config.extra_env.deep_view().to_multiset()
    &&& key.target_dir_config == config.target_dir_config@
    &&& key.set_test == config.set_test
    &&& key.no_deps == config.no_deps
    &&& key.metadata_extra_args == config.metadata_extra_args.deep_view()
}

pub fn cargo_config_key(config: &CargoSettings) -> (r: SharedAnalyzerCargoConfigKey)
    ensures
        is_cargo_key(*config, r.deep_view()),
{
    let extra_env = sort(config.extra_env.duplicate());
    SharedAnalyzerCargoConfigKey {
        all_targets: config.all_targets,
        features: config.features.clone(),
        target: config.target.duplicate(),
        sysroot: config.sysroot.duplicate(),
        sysroot_src: config.sysroot_src.duplicate(),
        rustc_source: config.rustc_source.duplicate(),
        extra_includes: config.extra_includes.duplicate(),
        cfg_overrides: config.cfg_overrides.clone(),
        wrap_rustc_in_build_scripts: config.wrap_rustc_in_build_scripts,
        invocation_strategy: config.invocation_strategy.clone(),
        run_build_script_command: config.run_build_script_command.clone(),
        extra_args: config.extra_args.duplicate(),
        extra_env,
        target_dir_config: config.target_dir_config.clone(),
        set_test: config.set_test,
        no_deps: config.no_deps,
        metadata_extra_args: config.metadata_extra_args.duplicate(),
    }
}

/// The pairs as a map, a later pair replacing an earlier one of the same key.
pub open spec fn as_map(pairs: Seq<(Seq<char>, u16)>) -> Map<Seq<char>, u16>
    decreases pairs.len(),
{
    if pairs.len() == 0 {
        Map::empty()
    } else {
        as_map(pairs.drop_last()).insert(pairs.last().0, pairs.last().1)
    }
}

pub open spec fn query_capacities(settings: AnalyzerSettings) -> Seq<(Seq<char>, u16)> {
    match settings.lru_query_capacities {
        Some(capacities) => capacities.deep_view(),
        None => Seq::empty(),
    }
}

/// The pairs list a map by ascending key.
pub open spec fn lists_map(pairs: Seq<(Seq<char>, u16)>, m: Map<Seq<char>, u16>) -> bool {
    &&& ascending::<String>(pairs.map_values(|p: (Seq<char>, u16)| p.0))
    &&& forall|i: int| 0 <= i < pairs.len() ==> m.contains_key((#[trigger] pairs[i]).0) && m[pairs[i].0] == pairs[i].1
    &&& forall|k: Seq<char>| #[trigger] m.contains_key(k) ==> exists|i: int| 0 <= i < pairs.len() && (#[trigger] pairs[i]).0 == k
}

pub open spec fn is_database_key(settings: AnalyzerSettings, key: DatabaseConfigKeyView) -> bool {
    &&& key.lru_parse_query_capacity == settings.lru_parse_query_capacity
    &&& lists_map(key.lru_query_capacities, as_map(query_capacities(settings)))
    &&& key.expand_proc_attr_macros == settings.expand_proc_attr_macros
}

/// The capacities by ascending query name, each name once.
fn capacities_by_query(pairs: &Vec<(String, u16)>) -> (r: Vec<(String, u16)>)
    ensures
        lists_map(r.deep_view(), as_map(pairs.deep_view())),
{
    let mut m: OrderedMap<String, u16> = OrderedMap::new();
    let ghost all = pairs.deep_view();
    let mut i: usize = 0;
    proof {
        assert(all.take(0) =~= Seq::empty());
    }
    while i < pairs.len()
        invariant
            i <= pairs.len(),
            all == pairs.deep_view(),
            m@ == as_map(all.take(i as int)),
        decreases pairs.len() - i,
    {
        m.insert(pairs[i].0.clone(), pairs[i].1);
        proof {
            assert(all.take(i + 1).drop_last() =~= all.take(i as int));
            assert(all.take(i + 1).last() == all[i as int]);
        }
        i = i + 1;
    }
    proof {
        assert(all.take(i as int) =~= all);
    }
    let n = m.len();
    let mut r: Vec<(String, u16)> = Vec::new();
    let mut j: usize = 0;
    while j < n
        invariant
            j <= n,
            n == m.keys().len(),
            crate::ordered::listed(m),
            r.deep_view().len() == j,
            forall|x: int| 0 <= x < j ==> #[trigger] r.deep_view()[x] == (m.keys()[x], m.values()[x]),
        decreases n - j,
    {
        let ghost before = r.deep_view();
        r.push((m.key_at(j).clone(), *m.value_at(j)));
        proof {
            assert(r.deep_view() =~= before.push((m.keys()[j as int], m.values()[j as int])));
        }
        j = j + 1;
    }
    proof {
        let listed_pairs = r.deep_view();
        assert(listed_pairs.map_values(|p: (Seq<char>, u16)| p.0) =~= m.keys());
        assert forall|x: int| 0 <= x < listed_pairs.len() implies m@.contains_key((#[trigger] listed_pairs[x]).0)
            && m@[listed_pairs[x].0] == listed_pairs[x].1 by {
            assert(m@.contains_key(m.keys()[x]));
        }
        assert forall|k: Seq<char>| #[trigger] m@.contains_key(k) implies exists|x: int|
            0 <= x < listed_pairs.len() && (#[trigger] listed_pairs[x]).0 == k by {
            assert(m.keys().contains(k));
            let x = m.keys().index_of(k);
            assert(listed_pairs[x].0 == k);
        }
    }
    r
}

pub fn shared_database_config_key(settings: &AnalyzerSettings) -> (r: SharedAnalyzerDatabaseConfigKey)
    ensures
        is_database_key(*settings, r.deep_view()),
{
    let capacities = match &settings.lru_query_capacities {
        Some(capacities) => capacities_by_query(capacities),
        None => {
            let none: Vec<(String, u16)> = Vec::new();
            proof {
                assert(none.deep_view() =~= Seq::empty());
            }
            capacities_by_query(&none)
        },
    };
    SharedAnalyzerDatabaseConfigKey {
        lru_parse_query_capacity: settings.lru_parse_query_capacity,
        lru_query_capacities: capacities,
        expand_proc_attr_macros: settings.expand_proc_attr_macros,
    }
}

pub open spec fn proc_macro_server(settings: AnalyzerSettings) -> ProcMacroServerKeyView {
    if !settings.expand_proc_macros {
        ProcMacroServerKeyView::Disabled
    } else {
        match settings.proc_macro_srv {
            Some(path) => ProcMacroServerKeyView::Explicit(path@),
            None => ProcMacroServerKeyView::Sysroot,
        }
    }
}

pub open spec fn is_load_key(settings: AnalyzerSettings, key: LoadKeyView) -> bool {
    &&& key.load_out_dirs_from_check == settings.run_build_scripts
    &&& key.proc_macro_server == proc_macro_server(settings)
    &&& sorted::<(String, Vec<String>)>(key.ignored_proc_macros)
    &&& key.ignored_proc_macros.to_multiset() == settings.ignored_proc_macros.deep_view().to_multiset()
    &&& key.proc_macro_processes == settings.proc_macro_num_processes
}

/// How a session's workspaces are loaded. The number of macro server processes must fit its key.
pub fn shared_load_config_from_config(settings: &AnalyzerSettings) -> (r: Result<SharedLoadConfig, ConfigError>)
    ensures
        r is Ok <==> settings.proc_macro_num_processes <= u16::MAX,
        r matches Ok(load) ==> {
            &&& is_load_key(*settings, load.key.deep_view())
            &&& load.prefill_caches == settings.prefill_caches
            &&& load.num_worker_threads == settings.prime_caches_num_threads
        },
        r matches Err(e) ==> e == ConfigError::TooManyProcMacroProcesses,
{
    let ignored_proc_macros = sort(settings.ignored_proc_macros.duplicate());
    if settings.proc_macro_num_processes > 65535 {
        return Err(ConfigError::TooManyProcMacroProcesses);
    }
    let proc_macro_server = if settings.expand_proc_macros {
        match &settings.proc_macro_srv {
            Some(path) => SharedAnalyzerProcMacroServerKey::Explicit(path.clone()),
            None => SharedAnalyzerProcMacroServerKey::Sysroot,
        }
    } else {
        SharedAnalyzerProcMacroServerKey::Disabled
    };
    Ok(
        SharedLoadConfig {
            key: SharedAnalyzerLoadKey {
                load_out_dirs_from_check: settings.run_build_scripts,
                proc_macro_server,
                ignored_proc_macros,
                proc_macro_processes: settings.proc_macro_num_processes as u16,
            },
            prefill_caches: settings.prefill_caches,
            num_worker_threads: settings.prime_caches_num_threads,
        },
    )
}

impl SharedLoadConfig {
    pub fn to_load_cargo_config(&self) -> (r: LoadCargoConfig)
        ensures
            r.load_out_dirs_from_check == self.key.load_out_dirs_from_check,
            match self.key.proc_macro_server {
                SharedAnalyzerProcMacroServerKey::Disabled => r.with_proc_macro_server is Disabled,
                SharedAnalyzerProcMacroServerKey::Sysroot => r.with_proc_macro_server is Sysroot,
                SharedAnalyzerProcMacroServerKey::Explicit(path) => r.with_proc_macro_server matches ProcMacroServerChoice::Explicit(
                    p,
                ) && p@ == path@,
            },
            r.prefill_caches == self.prefill_caches,
            r.num_worker_threads == self.num_worker_threads,
            r.proc_macro_processes == self.key.proc_macro_processes,
    {
        LoadCargoConfig {
            load_out_dirs_from_check: self.key.load_out_dirs_from_check,
            with_proc_macro_server: match &self.key.proc_macro_server {
                SharedAnalyzerProcMacroServerKey::Disabled => ProcMacroServerChoice::Disabled,
                SharedAnalyzerProcMacroServerKey::Sysroot => ProcMacroServerChoice::Sysroot,
                SharedAnalyzerProcMacroServerKey::Explicit(path) => ProcMacroServerChoice::Explicit(path.clone()),
            },
            prefill_caches: self.prefill_caches,
            num_worker_threads: self.num_worker_threads,
            proc_macro_processes: self.key.proc_macro_processes as usize,
        }
    }
}

pub open spec fn is_world_key(settings: AnalyzerSettings, key: WorldKeyView) -> bool {
    &&& is_cargo_key(settings.cargo, key.cargo)
    &&& is_database_key(settings, key.database)
    &&& is_load_key(settings, key.load)
}

/// The detached files that have a manifest path, in order.
pub open spec fn usable_detached(files: Seq<Option<Seq<char>>>) -> Seq<Seq<char>>
    decreases files.len(),
{
    if files.len() == 0 {
        Seq::empty()
    } else {
        let rest = usable_detached(files.drop_last());
        match files.last() {
            Some(file) => rest.push(file),
            None => rest,
        }
    }
}

pub open spec fn project_keys(projects: Seq<LinkedProject>) -> Seq<Seq<char>> {
    projects.map_values(|p: LinkedProject| project_key(p))
}

pub open spec fn detached_keys(files: Seq<Seq<char>>) -> Seq<Seq<char>> {
    files.map_values(|f: Seq<char>| detached_file_key(f))
}

/// The keys of everything that a session loads.
pub open spec fn all_project_keys(settings: AnalyzerSettings) -> Seq<Seq<char>> {
    project_keys(settings.projects@) + detached_keys(usable_detached(settings.detached_files.deep_view()))
}

pub open spec fn is_view_key(settings: AnalyzerSettings, key: ViewKeyView) -> bool {
    &&& strictly_sorted::<String>(key.projects)
    &&& forall|k: Seq<char>| #[trigger] key.projects.contains(k) <==> all_project_keys(settings).contains(k)
    &&& strictly_sorted::<String>(key.excluded_paths)
    &&& forall|k: Seq<char>| #[trigger] key.excluded_paths.contains(k) <==> settings.excluded.deep_view().contains(k)
}

fn usable_files(files: &Vec<Option<String>>) -> (r: Vec<String>)
    ensures
        r.deep_view() == usable_detached(files.deep_view()),
{
    let mut r: Vec<String> = Vec::new();
    let ghost all = files.deep_view();
    let mut i: usize = 0;
    proof {
        assert(all.take(0) =~= Seq::empty());
        assert(r.deep_view() =~= Seq::empty());
    }
    while i < files.len()
        invariant
            i <= files.len(),
            all == files.deep_view(),
            r.deep_view() == usable_detached(all.take(i as int)),
        decreases files.len() - i,
    {
        let ghost before = r.deep_view();
        proof {
            assert(all.take(i + 1).drop_last() =~= all.take(i as int));
            assert(all.take(i + 1).last() == all[i as int]);
        }
        match &files[i] {
            Some(file) => {
                r.push(file.clone());
                proof {
                    assert(r.deep_view() =~= before.push(file@));
                }
            },
            None => {},
        }
        i = i + 1;
    }
    proof {
        assert(all.take(i as int) =~= all);
    }
    r
}

fn list_project_keys(projects: &Vec<LinkedProject>, files: &Vec<String>) -> (r: Vec<String>)
    ensures
        r.deep_view() == project_keys(projects@) + detached_keys(files.deep_view()),
{
    let mut r: Vec<String> = Vec::new();
    let ghost first = project_keys(projects@);
    let ghost second = detached_keys(files.deep_view());
    let mut i: usize = 0;
    proof {
        assert(r.deep_view() =~= first.take(0));
    }
    while i < projects.len()
        invariant
            i <= projects.len(),
            first == project_keys(projects@),
            r.deep_view() == first.take(i as int),
        decreases projects.len() - i,
    {
        let ghost before = r.deep_view();
        r.push(shared_project_key(&projects[i]));
        proof {
            assert(r.deep_view() =~= before.push(first[i as int]));
            assert(r.deep_view() =~= first.take(i + 1));
        }
        i = i + 1;
    }
    let mut j: usize = 0;
    proof {
        assert(r.deep_view() =~= first + second.take(0));
    }
    while j < files.len()
        invariant
            j <= files.len(),
            second == detached_keys(files.deep_view()),
            r.deep_view() == first + second.take(j as int),
        decreases files.len() - j,
    {
        let ghost before = r.deep_view();
        r.push(shared_detached_file_key(&files[j]));
        proof {
            assert(r.deep_view() =~= before.push(second[j as int]));
            assert(r.deep_view() =~= first + second.take(j + 1));
        }
        j = j + 1;
    }
    proof {
        assert(second.take(j as int) =~= second);
    }
    r
}

/// The backend key of a session, and its settings as the runtime keeps them. Fails exactly where
/// the load settings have no key.
pub fn shared_analyzer_context_from_config(settings: AnalyzerSettings) -> (r: Result<
    (SharedAnalyzerBackendKey, SharedAnalyzerConfig),
    ConfigError,
>)
    ensures
        r is Ok <==> settings.proc_macro_num_processes <= u16::MAX,
        r matches Err(e) ==> e == ConfigError::TooManyProcMacroProcesses,
        r matches Ok((key, config)) ==> {
            &&& is_world_key(settings, key.shared_world.deep_view())
            &&& is_view_key(settings, key.workspace_view.deep_view())
            &&& config.excluded_paths.deep_view() == key.workspace_view.excluded_paths.deep_view()
            &&& config.projects == settings.projects
            &&& config.detached_files.deep_view() == usable_detached(settings.detached_files.deep_view())
            &&& config.cargo_config == settings.cargo
            &&& config.load.key.deep_view() == key.shared_world.load.deep_view()
            &&& config.load.prefill_caches == settings.prefill_caches
            &&& config.load.num_worker_threads == settings.prime_caches_num_threads
        },
{
    let excluded_paths = sorted_unique(settings.excluded.duplicate());
    let detached_files = usable_files(&settings.detached_files);
    let projects = sorted_unique(list_project_keys(&settings.projects, &detached_files));
    let cargo = cargo_config_key(&settings.cargo);
    let load = match shared_load_config_from_config(&settings) {
        Ok(load) => load,
        Err(error) => {
            return Err(error);
        },
    };
    let key = SharedAnalyzerBackendKey {
        shared_world: SharedAnalyzerWorldKey {
            cargo,
            database: shared_database_config_key(&settings),
            load: load.key.duplicate(),
        },
        workspace_view: SharedAnalyzerViewKey { projects, excluded_paths: excluded_paths.duplicate() },
    };
    Ok(
        (
            key,
            SharedAnalyzerConfig {
                excluded_paths,
                projects: settings.projects,
                detached_files,
                cargo_config: settings.cargo,
                load,
            },
        ),
    )
}

pub open spec fn source_key(source: SharedAnalyzerWorkspaceLoadSource) -> Seq<char> {
    match source {
        SharedAnalyzerWorkspaceLoadSource::ManifestProject(manifest) => "manifest:"@ + manifest@,
        SharedAnalyzerWorkspaceLoadSource::JsonProject(json) => "json:"@ + json@,
        SharedAnalyzerWorkspaceLoadSource::DetachedFile(file) => detached_file_key(file@),
    }
}

pub open spec fn source_of_project(source: SharedAnalyzerWorkspaceLoadSource, project: LinkedProject) -> bool {
    match project {
        LinkedProject::ProjectManifest(m) => source matches SharedAnalyzerWorkspaceLoadSource::ManifestProject(s) && s@ == m@,
        LinkedProject::InlineProjectJson(m) => source matches SharedAnalyzerWorkspaceLoadSource::JsonProject(s) && s@ == m@,
    }
}

pub open spec fn source_of_file(source: SharedAnalyzerWorkspaceLoadSource, file: String) -> bool {
    source matches SharedAnalyzerWorkspaceLoadSource::DetachedFile(s) && s@ == file@
}

impl SharedAnalyzerConfig {
    pub fn excluded_paths(&self) -> (r: &Vec<String>)
        ensures
            *r == self.excluded_paths,
    {
        &self.excluded_paths
    }

    /// What the session loads, each with its key: the projects, then the detached files.
    pub fn workspace_sources(&self) -> (r: Vec<(String, SharedAnalyzerWorkspaceLoadSource)>)
        ensures
            r@.len() == self.projects@.len() + self.detached_files@.len(),
            forall|i: int| 0 <= i < r@.len() ==> (#[trigger] r@[i]).0@ == source_key(r@[i].1),
            forall|i: int| 0 <= i < self.projects@.len() ==> source_of_project(r@[i].1, #[trigger] self.projects@[i]),
            forall|i: int| 0 <= i < self.detached_files@.len() ==> source_of_file(r@[self.projects@.len() + i].1, #[trigger] self.detached_files@[i]),
    {
        let mut r: Vec<(String, SharedAnalyzerWorkspaceLoadSource)> = Vec::new();
        let mut i: usize = 0;
        while i < self.projects.len()
            invariant
                i <= self.projects.len(),
                r@.len() == i,
                forall|j: int| 0 <= j < i ==> (#[trigger] r@[j]).0@ == source_key(r@[j].1),
                forall|j: int| 0 <= j < i ==> source_of_project(r@[j].1, #[trigger] self.projects@[j]),
            decreases self.projects.len() - i,
        {
            let key = shared_project_key(&self.projects[i]);
            let source = match &self.projects[i] {
                LinkedProject::ProjectManifest(m) => SharedAnalyzerWorkspaceLoadSource::ManifestProject(m.clone()),
                LinkedProject::InlineProjectJson(m) => SharedAnalyzerWorkspaceLoadSource::JsonProject(m.clone()),
            };
            r.push((key, source));
            i = i + 1;
        }
        let mut k: usize = 0;
        while k < self.detached_files.len()
            invariant
                k <= self.detached_files.len(),
                r@.len() == self.projects@.len() + k,
                forall|j: int| 0 <= j < r@.len() ==> (#[trigger] r@[j]).0@ == source_key(r@[j].1),
                forall|j: int| 0 <= j < self.projects@.len() ==> source_of_project(r@[j].1, #[trigger] self.projects@[j]),
                forall|j: int| 0 <= j < k ==> source_of_file(r@[self.projects@.len() + j].1, #[trigger] self.detached_files@[j]),
            decreases self.detached_files.len() - k,
        {
            let key = shared_detached_file_key(&self.detached_files[k]);
            let ghost before = r@;
            r.push((key, SharedAnalyzerWorkspaceLoadSource::DetachedFile(self.detached_files[k].clone())));
            proof {
                assert forall|j: int| 0 <= j < k + 1 implies source_of_file(r@[self.projects@.len() + j].1, #[trigger] self.detached_files@[j]) by {
                    if j < k {
                        assert(r@[self.projects@.len() + j] == before[self.projects@.len() + j]);
                    }
                }
            }
            k = k + 1;
        }
        r
    }
}

/// Two settings agree on all that a world depends on, the order of unordered parts aside.
pub open spec fn same_world_settings(a: AnalyzerSettings, b: AnalyzerSettings) -> bool {
    &&& a.cargo.all_targets == b.cargo.all_targets
    &&& a.cargo.features@ == b.cargo.features@
    &&& a.cargo.target.deep_view() == b.cargo.target.deep_view()
    &&& a.cargo.sysroot.deep_view() == b.cargo.sysroot.deep_view()
    &&& a.cargo.sysroot_src.deep_view() == b.cargo.sysroot_src.deep_view()
    &&& a.cargo.rustc_source.deep_view() == b.cargo.rustc_source.deep_view()
    &&& a.cargo.extra_includes.deep_view() == b.cargo.extra_includes.deep_view()
    &&& a.cargo.cfg_overrides@ == b.cargo.cfg_overrides@
    &&& a.cargo.wrap_rustc_in_build_scripts == b.cargo.wrap_rustc_in_build_scripts
    &&& a.cargo.invocation_strategy@ == b.cargo.invocation_strategy@
    &&& a.cargo.run_build_script_command@ == b.cargo.run_build_script_command@
    &&& a.cargo.extra_args.deep_view() == b.cargo.extra_args.deep_view()
    &&& a.cargo.extra_env.deep_view().to_multiset() == b.cargo.extra_env.deep_view().to_multiset()
    &&& a.cargo.target_dir_config@ == b.cargo.target_dir_config@
    &&& a.cargo.set_test == b.cargo.set_test
    &&& a.cargo.no_deps == b.cargo.no_deps
    &&& a.cargo.metadata_extra_args.deep_view() == b.cargo.metadata_extra_args.deep_view()
    &&& a.lru_parse_query_capacity == b.lru_parse_query_capacity
    &&& as_map(query_capacities(a)) == as_map(query_capacities(b))
    &&& a.expand_proc_attr_macros == b.expand_proc_attr_macros
    &&& a.run_build_scripts == b.run_build_scripts
    &&& proc_macro_server(a) == proc_macro_server(b)
    &&& a.ignored_proc_macros.deep_view().to_multiset() == b.ignored_proc_macros.deep_view().to_multiset()
    &&& a.proc_macro_num_processes == b.proc_macro_num_processes
}

proof fn lemma_listing_unique(a: Seq<(Seq<char>, u16)>, b: Seq<(Seq<char>, u16)>, m: Map<Seq<char>, u16>)
    requires
        lists_map(a, m),
        lists_map(b, m),
    ensures
        a == b,
{
    let x = a.map_values(|p: (Seq<char>, u16)| p.0);
    let y = b.map_values(|p: (Seq<char>, u16)| p.0);
    assert forall|k: Seq<char>| #[trigger] x.contains(k) <==> y.contains(k) by {
        if x.contains(k) {
            let i = x.index_of(k);
            assert(a[i].0 == k && m.contains_key(k));
            let j = choose|j: int| 0 <= j < b.len() && (#[trigger] b[j]).0 == k;
            assert(y[j] == k);
        }
        if y.contains(k) {
            let i = y.index_of(k);
            assert(b[i].0 == k && m.contains_key(k));
            let j = choose|j: int| 0 <= j < a.len() && (#[trigger] a[j]).0 == k;
            assert(x[j] == k);
        }
    }
    crate::ordered::lemma_ascending_unique::<String>(x, y);
    assert(a.len() == x.len() && b.len() == y.len());
    assert forall|i: int| 0 <= i < a.len() implies a[i] == b[i] by {
        assert(x[i] == a[i].0 && y[i] == b[i].0);
    }
    assert(a =~= b);
}

/// Sessions whose toolchain, Cargo and load settings agree get the same world key, whatever their
/// projects and excluded paths are and in whatever order the environment was listed.
pub proof fn law_compatible_sessions_share_a_world(
    a: AnalyzerSettings,
    b: AnalyzerSettings,
    x: WorldKeyView,
    y: WorldKeyView,
)
    requires
        same_world_settings(a, b),
        is_world_key(a, x),
        is_world_key(b, y),
    ensures
        x == y,
{
    lemma_sorted_unique::<(String, Option<String>)>(x.cargo.extra_env, y.cargo.extra_env);
    lemma_sorted_unique::<(String, Vec<String>)>(x.load.ignored_proc_macros, y.load.ignored_proc_macros);
    lemma_listing_unique(
        x.database.lru_query_capacities,
        y.database.lru_query_capacities,
        as_map(query_capacities(a)),
    );
    assert(x.cargo =~= y.cargo);
    assert(x.database =~= y.database);
    assert(x.load =~= y.load);
}

/// Sessions of different Cargo or load settings are kept apart: equal world keys mean equal
/// settings.
pub proof fn law_world_key_separates(a: AnalyzerSettings, b: AnalyzerSettings, key: WorldKeyView)
    requires
        is_world_key(a, key),
        is_world_key(b, key),
    ensures
        same_world_settings(a, b),
{
    assert(as_map(query_capacities(a)) =~= as_map(query_capacities(b))) by {
        let pairs = key.database.lru_query_capacities;
        let (m, n) = (as_map(query_capacities(a)), as_map(query_capacities(b)));
        assert forall|k: Seq<char>| m.contains_key(k) <==> n.contains_key(k) by {
            if m.contains_key(k) {
                let i = choose|i: int| 0 <= i < pairs.len() && (#[trigger] pairs[i]).0 == k;
                assert(n.contains_key(pairs[i].0));
            }
            if n.contains_key(k) {
                let i = choose|i: int| 0 <= i < pairs.len() && (#[trigger] pairs[i]).0 == k;
                assert(m.contains_key(pairs[i].0));
            }
        }
        assert forall|k: Seq<char>| m.contains_key(k) implies m[k] == n[k] by {
            let i = choose|i: int| 0 <= i < pairs.len() && (#[trigger] pairs[i]).0 == k;
            assert(m[pairs[i].0] == pairs[i].1 && n[pairs[i].0] == pairs[i].1);
        }
    }
}

/// The view key does not depend on the order of projects and excluded paths, nor on repetitions.
pub proof fn law_view_key_is_order_free(a: AnalyzerSettings, b: AnalyzerSettings, x: ViewKeyView, y: ViewKeyView)
    requires
        is_view_key(a, x),
        is_view_key(b, y),
        forall|k: Seq<char>| #[trigger] all_project_keys(a).contains(k) <==> all_project_keys(b).contains(k),
        forall|k: Seq<char>| #[trigger] a.excluded.deep_view().contains(k) <==> b.excluded.deep_view().contains(k),
    ensures
        x == y,
{
    assert forall|k: Seq<char>| #[trigger] x.projects.contains(k) <==> y.projects.contains(k) by {
        assert(all_project_keys(a).contains(k) <==> all_project_keys(b).contains(k));
    }
    assert forall|k: Seq<char>| #[trigger] x.excluded_paths.contains(k) <==> y.excluded_paths.contains(k) by {
        assert(a.excluded.deep_view().contains(k) <==> b.excluded.deep_view().contains(k));
    }
    lemma_strictly_sorted_unique::<String>(x.projects, y.projects);
    lemma_strictly_sorted_unique::<String>(x.excluded_paths, y.excluded_paths);
}

/// Macros are expanded by no server where they are not to be expanded, by a named one where one is named,
/// and else by that of the sysroot.
pub proof fn law_macro_server_follows_the_settings(settings: AnalyzerSettings)
    ensures
        proc_macro_server(settings) is Disabled <==> !settings.expand_proc_macros,
        settings.expand_proc_macros && settings.proc_macro_srv is None ==> proc_macro_server(settings) is Sysroot,
        settings.expand_proc_macros ==> (settings.proc_macro_srv matches Some(path) ==> proc_macro_server(settings)
            == ProcMacroServerKeyView::Explicit(path@)),
{
}

/// Projects are told apart by their keys: two have the same key exactly when both are manifests of one
/// path, or both are given inline by the same text, and none has the key of a detached file. What is
/// loaded for a project has the key of the project.
pub proof fn law_projects_are_told_apart(a: LinkedProject, b: LinkedProject, file: Seq<char>, source: SharedAnalyzerWorkspaceLoadSource)
    ensures
        project_key(a) == project_key(b) <==> (match (a, b) {
            (LinkedProject::ProjectManifest(x), LinkedProject::ProjectManifest(y)) => x@ == y@,
            (LinkedProject::InlineProjectJson(x), LinkedProject::InlineProjectJson(y)) => x@ == y@,
            _ => false,
        }),
        project_key(a) != detached_file_key(file),
        source_of_project(source, a) ==> source_key(source) == project_key(a),
{
    reveal_strlit("manifest:");
    reveal_strlit("json:");
    reveal_strlit("detached:");
    let (m, j, d) = ("manifest:"@, "json:"@, "detached:"@);
    let (x, y) = (project_key(a), project_key(b));
    assert(m[0] == 'm' && j[0] == 'j' && d[0] == 'd');
    assert(a is ProjectManifest ==> x[0] == 'm');
    assert(a is InlineProjectJson ==> x[0] == 'j');
    assert(b is ProjectManifest ==> y[0] == 'm');
    assert(b is InlineProjectJson ==> y[0] == 'j');
    assert(detached_file_key(file)[0] == 'd');
    match (a, b) {
        (LinkedProject::ProjectManifest(s), LinkedProject::ProjectManifest(t)) => {
            assert(x.skip(m.len() as int) =~= s@);
            assert(y.skip(m.len() as int) =~= t@);
        },
        (LinkedProject::InlineProjectJson(s), LinkedProject::InlineProjectJson(t)) => {
            assert(x.skip(j.len() as int) =~= s@);
            assert(y.skip(j.len() as int) =~= t@);
        },
        _ => {},
    }
}

/// Detached files are told apart by their keys.
pub proof fn law_detached_files_are_told_apart(a: Seq<char>, b: Seq<char>)
    ensures
        detached_file_key(a) == detached_file_key(b) <==> a == b,
{
    let n = "detached:"@.len() as int;
    assert(detached_file_key(a).skip(n) =~= a);
    assert(detached_file_key(b).skip(n) =~= b);
}

/// The detached files that are loaded are those with a manifest path, in their order.
pub proof fn law_usable_files_are_loaded(files: Seq<Option<Seq<char>>>)
    ensures
        ({
            let list = files.filter(|f: Option<Seq<char>>| f is Some);
            &&& usable_detached(files).len() == list.len()
            &&& forall|k: int| 0 <= k < list.len() ==> #[trigger] list[k] == Some(usable_detached(files)[k])
        }),
    decreases files.len(),
{
    reveal(Seq::filter);
    if files.len() > 0 {
        let rest = files.drop_last();
        law_usable_files_are_loaded(rest);
        let was = rest.filter(|f: Option<Seq<char>>| f is Some);
        let list = files.filter(|f: Option<Seq<char>>| f is Some);
        assert forall|k: int| 0 <= k < list.len() implies #[trigger] list[k] == Some(usable_detached(files)[k]) by {
            if k < was.len() {
                assert(was[k] == list[k]);
            }
        }
    }
}

/// Of two capacities for one query the later counts.
pub proof fn law_last_capacity_counts(pairs: Seq<(Seq<char>, u16)>, i: int)
    requires
        0 <= i < pairs.len(),
        forall|j: int| i < j < pairs.len() ==> (#[trigger] pairs[j]).0 != pairs[i].0,
    ensures
        as_map(pairs).contains_key(pairs[i].0),
        as_map(pairs)[pairs[i].0] == pairs[i].1,
    decreases pairs.len(),
{
    let rest = pairs.drop_last();
    if i < rest.len() {
        assert(pairs[rest.len() as int].0 != pairs[i].0);
        assert(rest[i] == pairs[i]);
        assert forall|j: int| i < j < rest.len() implies (#[trigger] rest[j]).0 != rest[i].0 by {
            assert(rest[j] == pairs[j]);
        }
        law_last_capacity_counts(rest, i);
    }
}

/// Sessions of different projects or excluded paths have different views.
pub proof fn law_view_key_separates(a: AnalyzerSettings, b: AnalyzerSettings, key: ViewKeyView, k: Seq<char>)
    requires
        is_view_key(a, key),
        is_view_key(b, key),
    ensures
        all_project_keys(a).contains(k) <==> all_project_keys(b).contains(k),
        a.excluded.deep_view().contains(k) <==> b.excluded.deep_view().contains(k),
{
    assert(key.projects.contains(k) <==> all_project_keys(a).contains(k));
    assert(key.excluded_paths.contains(k) <==> a.excluded.deep_view().contains(k));
}

/// The projects of a view are all that are linked and all detached files that can be loaded.
pub proof fn law_view_has_all_projects(settings: AnalyzerSettings, k: Seq<char>)
    ensures
        all_project_keys(settings).contains(k) <==> (exists|i: int|
            0 <= i < settings.projects@.len() && project_key(#[trigger] settings.projects@[i]) == k) || (exists|i: int|
            0 <= i < usable_detached(settings.detached_files.deep_view()).len() && detached_file_key(
                #[trigger] usable_detached(settings.detached_files.deep_view())[i],
            ) == k),
{
    let linked = project_keys(settings.projects@);
    let files = usable_detached(settings.detached_files.deep_view());
    let detached = detached_keys(files);
    let all = all_project_keys(settings);
    if all.contains(k) {
        let i = all.index_of(k);
        if i < linked.len() {
            assert(project_key(settings.projects@[i]) == k);
        } else {
            assert(detached_file_key(files[i - linked.len()]) == k);
        }
    }
    if exists|i: int| 0 <= i < settings.projects@.len() && project_key(#[trigger] settings.projects@[i]) == k {
        let i = choose|i: int| 0 <= i < settings.projects@.len() && project_key(#[trigger] settings.projects@[i]) == k;
        assert(all[i] == k);
    }
    if exists|i: int| 0 <= i < files.len() && detached_file_key(#[trigger] files[i]) == k {
        let i = choose|i: int| 0 <= i < files.len() && detached_file_key(#[trigger] files[i]) == k;
        assert(all[linked.len() + i] == k);
    }
}

} // verus!
