//! The keys under which sessions share worlds and views.
use crate::ordered::{OrderedKey, Relation};
use crate::tokens::{compare, lemma_tokens_injective, write_field, Tokens};
use vstd::prelude::*;

verus! {

/// The Cargo settings that decide what a world holds.
#[derive(Debug)]
pub struct SharedAnalyzerCargoConfigKey {
    pub all_targets: bool,
    pub features: String,
    pub target: Option<String>,
    pub sysroot: Option<String>,
    pub sysroot_src: Option<String>,
    pub rustc_source: Option<String>,
    pub extra_includes: Vec<String>,
    pub cfg_overrides: String,
    pub wrap_rustc_in_build_scripts: bool,
    pub invocation_strategy: String,
    pub run_build_script_command: String,
    pub extra_args: Vec<String>,
    pub extra_env: Vec<(String, Option<String>)>,
    pub target_dir_config: String,
    pub set_test: bool,
    pub no_deps: bool,
    pub metadata_extra_args: Vec<String>,
}

#[verifier::ext_equal]
pub struct CargoConfigKeyView {
    pub all_targets: bool,
    pub features: Seq<char>,
    pub target: Option<Seq<char>>,
    pub sysroot: Option<Seq<char>>,
    pub sysroot_src: Option<Seq<char>>,
    pub rustc_source: Option<Seq<char>>,
    pub extra_includes: Seq<Seq<char>>,
    pub cfg_overrides: Seq<char>,
    pub wrap_rustc_in_build_scripts: bool,
    pub invocation_strategy: Seq<char>,
    pub run_build_script_command: Seq<char>,
    pub extra_args: Seq<Seq<char>>,
    pub extra_env: Seq<(Seq<char>, Option<Seq<char>>)>,
    pub target_dir_config: Seq<char>,
    pub set_test: bool,
    pub no_deps: bool,
    pub metadata_extra_args: Seq<Seq<char>>,
}

type CargoConfigKeyFields = (bool, (String, (Option<String>, (Option<String>, (Option<String>, (Option<String>, (Vec<String>, (String, (bool, (String, (String, (Vec<String>, (Vec<(String, Option<String>)>, (String, (bool, (bool, Vec<String>))))))))))))))));

impl DeepView for SharedAnalyzerCargoConfigKey {
    type V = CargoConfigKeyView;

    open spec fn deep_view(&self) -> CargoConfigKeyView {
        CargoConfigKeyView {
            all_targets: self.all_targets.deep_view(),
            features: self.features.deep_view(),
            target: self.target.deep_view(),
            sysroot: self.sysroot.deep_view(),
            sysroot_src: self.sysroot_src.deep_view(),
            rustc_source: self.rustc_source.deep_view(),
            extra_includes: self.extra_includes.deep_view(),
            cfg_overrides: self.cfg_overrides.deep_view(),
            wrap_rustc_in_build_scripts: self.wrap_rustc_in_build_scripts.deep_view(),
            invocation_strategy: self.invocation_strategy.deep_view(),
            run_build_script_command: self.run_build_script_command.deep_view(),
            extra_args: self.extra_args.deep_view(),
            extra_env: self.extra_env.deep_view(),
            target_dir_config: self.target_dir_config.deep_view(),
            set_test: self.set_test.deep_view(),
            no_deps: self.no_deps.deep_view(),
            metadata_extra_args: self.metadata_extra_args.deep_view(),
        }
    }
}

impl CargoConfigKeyView {
    pub open spec fn fields(self) -> (bool, (Seq<char>, (Option<Seq<char>>, (Option<Seq<char>>, (Option<Seq<char>>, (Option<Seq<char>>, (Seq<Seq<char>>, (Seq<char>, (bool, (Seq<char>, (Seq<char>, (Seq<Seq<char>>, (Seq<(Seq<char>, Option<Seq<char>>)>, (Seq<char>, (bool, (bool, Seq<Seq<char>>)))))))))))))))) {
        (self.all_targets, (self.features, (self.target, (self.sysroot, (self.sysroot_src, (self.rustc_source, (self.extra_includes, (self.cfg_overrides, (self.wrap_rustc_in_build_scripts, (self.invocation_strategy, (self.run_build_script_command, (self.extra_args, (self.extra_env, (self.target_dir_config, (self.set_test, (self.no_deps, self.metadata_extra_args))))))))))))))))
    }
}

impl Tokens for SharedAnalyzerCargoConfigKey {
    open spec fn tokens(model: CargoConfigKeyView) -> Seq<u32> {
        CargoConfigKeyFields::tokens(model.fields())
    }

    proof fn split(a: CargoConfigKeyView, b: CargoConfigKeyView, x: Seq<u32>, y: Seq<u32>) {
        CargoConfigKeyFields::split(a.fields(), b.fields(), x, y);
    }

    fn write(&self, out: &mut Vec<u32>) {
        let ghost r16 = <Vec<String> as Tokens>::tokens(self.metadata_extra_args.deep_view());
        let ghost r15 = <bool as Tokens>::tokens(self.no_deps.deep_view()) + r16;
        let ghost r14 = <bool as Tokens>::tokens(self.set_test.deep_view()) + r15;
        let ghost r13 = <String as Tokens>::tokens(self.target_dir_config.deep_view()) + r14;
        let ghost r12 = <Vec<(String, Option<String>)> as Tokens>::tokens(self.extra_env.deep_view()) + r13;
        let ghost r11 = <Vec<String> as Tokens>::tokens(self.extra_args.deep_view()) + r12;
        let ghost r10 = <String as Tokens>::tokens(self.run_build_script_command.deep_view()) + r11;
        let ghost r9 = <String as Tokens>::tokens(self.invocation_strategy.deep_view()) + r10;
        let ghost r8 = <bool as Tokens>::tokens(self.wrap_rustc_in_build_scripts.deep_view()) + r9;
        let ghost r7 = <String as Tokens>::tokens(self.cfg_overrides.deep_view()) + r8;
        let ghost r6 = <Vec<String> as Tokens>::tokens(self.extra_includes.deep_view()) + r7;
        let ghost r5 = <Option<String> as Tokens>::tokens(self.rustc_source.deep_view()) + r6;
        let ghost r4 = <Option<String> as Tokens>::tokens(self.sysroot_src.deep_view()) + r5;
        let ghost r3 = <Option<String> as Tokens>::tokens(self.sysroot.deep_view()) + r4;
        let ghost r2 = <Option<String> as Tokens>::tokens(self.target.deep_view()) + r3;
        let ghost r1 = <String as Tokens>::tokens(self.features.deep_view()) + r2;
        write_field(&self.all_targets, out, Ghost(r1));
        write_field(&self.features, out, Ghost(r2));
        write_field(&self.target, out, Ghost(r3));
        write_field(&self.sysroot, out, Ghost(r4));
        write_field(&self.sysroot_src, out, Ghost(r5));
        write_field(&self.rustc_source, out, Ghost(r6));
        write_field(&self.extra_includes, out, Ghost(r7));
        write_field(&self.cfg_overrides, out, Ghost(r8));
        write_field(&self.wrap_rustc_in_build_scripts, out, Ghost(r9));
        write_field(&self.invocation_strategy, out, Ghost(r10));
        write_field(&self.run_build_script_command, out, Ghost(r11));
        write_field(&self.extra_args, out, Ghost(r12));
        write_field(&self.extra_env, out, Ghost(r13));
        write_field(&self.target_dir_config, out, Ghost(r14));
        write_field(&self.set_test, out, Ghost(r15));
        write_field(&self.no_deps, out, Ghost(r16));
        self.metadata_extra_args.write(out);
    }

    fn duplicate(&self) -> (r: Self) {
        SharedAnalyzerCargoConfigKey {
            all_targets: self.all_targets.duplicate(),
            features: self.features.duplicate(),
            target: self.target.duplicate(),
            sysroot: self.sysroot.duplicate(),
            sysroot_src: self.sysroot_src.duplicate(),
            rustc_source: self.rustc_source.duplicate(),
            extra_includes: self.extra_includes.duplicate(),
            cfg_overrides: self.cfg_overrides.duplicate(),
            wrap_rustc_in_build_scripts: self.wrap_rustc_in_build_scripts.duplicate(),
            invocation_strategy: self.invocation_strategy.duplicate(),
            run_build_script_command: self.run_build_script_command.duplicate(),
            extra_args: self.extra_args.duplicate(),
            extra_env: self.extra_env.duplicate(),
            target_dir_config: self.target_dir_config.duplicate(),
            set_test: self.set_test.duplicate(),
            no_deps: self.no_deps.duplicate(),
            metadata_extra_args: self.metadata_extra_args.duplicate(),
        }
    }
}

/// The settings of the analysis database. The query capacities are kept in ascending order.
#[derive(Debug)]
pub struct SharedAnalyzerDatabaseConfigKey {
    pub lru_parse_query_capacity: Option<u16>,
    pub lru_query_capacities: Vec<(String, u16)>,
    pub expand_proc_attr_macros: bool,
}

#[verifier::ext_equal]
pub struct DatabaseConfigKeyView {
    pub lru_parse_query_capacity: Option<u16>,
    pub lru_query_capacities: Seq<(Seq<char>, u16)>,
    pub expand_proc_attr_macros: bool,
}

type DatabaseConfigKeyFields = (Option<u16>, (Vec<(String, u16)>, bool));

impl DeepView for SharedAnalyzerDatabaseConfigKey {
    type V = DatabaseConfigKeyView;

    open spec fn deep_view(&self) -> DatabaseConfigKeyView {
        DatabaseConfigKeyView {
            lru_parse_query_capacity: self.lru_parse_query_capacity.deep_view(),
            lru_query_capacities: self.lru_query_capacities.deep_view(),
            expand_proc_attr_macros: self.expand_proc_attr_macros.deep_view(),
        }
    }
}

impl DatabaseConfigKeyView {
    pub open spec fn fields(self) -> (Option<u16>, (Seq<(Seq<char>, u16)>, bool)) {
        (self.lru_parse_query_capacity, (self.lru_query_capacities, self.expand_proc_attr_macros))
    }
}

impl Tokens for SharedAnalyzerDatabaseConfigKey {
    open spec fn tokens(model: DatabaseConfigKeyView) -> Seq<u32> {
        DatabaseConfigKeyFields::tokens(model.fields())
    }

    proof fn split(a: DatabaseConfigKeyView, b: DatabaseConfigKeyView, x: Seq<u32>, y: Seq<u32>) {
        DatabaseConfigKeyFields::split(a.fields(), b.fields(), x, y);
    }

    fn write(&self, out: &mut Vec<u32>) {
        let ghost r2 = <bool as Tokens>::tokens(self.expand_proc_attr_macros.deep_view());
        let ghost r1 = <Vec<(String, u16)> as Tokens>::tokens(self.lru_query_capacities.deep_view()) + r2;
        write_field(&self.lru_parse_query_capacity, out, Ghost(r1));
        write_field(&self.lru_query_capacities, out, Ghost(r2));
        self.expand_proc_attr_macros.write(out);
    }

    fn duplicate(&self) -> (r: Self) {
        SharedAnalyzerDatabaseConfigKey {
            lru_parse_query_capacity: self.lru_parse_query_capacity.duplicate(),
            lru_query_capacities: self.lru_query_capacities.duplicate(),
            expand_proc_attr_macros: self.expand_proc_attr_macros.duplicate(),
        }
    }
}

/// Which process expands procedural macros.
#[derive(Debug)]
pub enum SharedAnalyzerProcMacroServerKey {
    Disabled,
    Sysroot,
    Explicit(String),
}

pub enum ProcMacroServerKeyView {
    Disabled,
    Sysroot,
    Explicit(Seq<char>),
}

impl DeepView for SharedAnalyzerProcMacroServerKey {
    type V = ProcMacroServerKeyView;

    open spec fn deep_view(&self) -> ProcMacroServerKeyView {
        match self {
            SharedAnalyzerProcMacroServerKey::Disabled => ProcMacroServerKeyView::Disabled,
            SharedAnalyzerProcMacroServerKey::Sysroot => ProcMacroServerKeyView::Sysroot,
            SharedAnalyzerProcMacroServerKey::Explicit(path) => ProcMacroServerKeyView::Explicit(path@),
        }
    }
}

impl Tokens for SharedAnalyzerProcMacroServerKey {
    open spec fn tokens(model: ProcMacroServerKeyView) -> Seq<u32> {
        match model {
            ProcMacroServerKeyView::Disabled => seq![0u32],
            ProcMacroServerKeyView::Sysroot => seq![1u32],
            ProcMacroServerKeyView::Explicit(path) => seq![2u32] + <String as Tokens>::tokens(path),
        }
    }

    proof fn split(a: ProcMacroServerKeyView, b: ProcMacroServerKeyView, x: Seq<u32>, y: Seq<u32>) {
        let (p, q) = (Self::tokens(a) + x, Self::tokens(b) + y);
        assert(p[0] == (if a is Disabled { 0u32 } else if a is Sysroot { 1u32 } else { 2u32 }));
        assert(q[0] == (if b is Disabled { 0u32 } else if b is Sysroot { 1u32 } else { 2u32 }));
        if a is Explicit && b is Explicit {
            assert(p.skip(1) =~= <String as Tokens>::tokens(a->0) + x);
            assert(q.skip(1) =~= <String as Tokens>::tokens(b->0) + y);
            <String as Tokens>::split(a->0, b->0, x, y);
        } else {
            assert(p.skip(1) =~= x);
            assert(q.skip(1) =~= y);
        }
    }

    fn write(&self, out: &mut Vec<u32>) {
        match self {
            SharedAnalyzerProcMacroServerKey::Disabled => {
                out.push(0);
            },
            SharedAnalyzerProcMacroServerKey::Sysroot => {
                out.push(1);
            },
            SharedAnalyzerProcMacroServerKey::Explicit(path) => {
                out.push(2);
                path.write(out);
            },
        }
        proof {
            assert(out@ =~= old(out)@ + Self::tokens(self.deep_view()));
        }
    }

    fn duplicate(&self) -> (r: Self) {
        match self {
            SharedAnalyzerProcMacroServerKey::Disabled => SharedAnalyzerProcMacroServerKey::Disabled,
            SharedAnalyzerProcMacroServerKey::Sysroot => SharedAnalyzerProcMacroServerKey::Sysroot,
            SharedAnalyzerProcMacroServerKey::Explicit(path) => SharedAnalyzerProcMacroServerKey::Explicit(path.clone()),
        }
    }
}

/// How workspaces are loaded into a world.
#[derive(Debug)]
pub struct SharedAnalyzerLoadKey {
    pub load_out_dirs_from_check: bool,
    pub proc_macro_server: SharedAnalyzerProcMacroServerKey,
    pub ignored_proc_macros: Vec<(String, Vec<String>)>,
    pub proc_macro_processes: u16,
}

#[verifier::ext_equal]
pub struct LoadKeyView {
    pub load_out_dirs_from_check: bool,
    pub proc_macro_server: ProcMacroServerKeyView,
    pub ignored_proc_macros: Seq<(Seq<char>, Seq<Seq<char>>)>,
    pub proc_macro_processes: u16,
}

type LoadKeyFields = (bool, (SharedAnalyzerProcMacroServerKey, (Vec<(String, Vec<String>)>, u16)));

impl DeepView for SharedAnalyzerLoadKey {
    type V = LoadKeyView;

    open spec fn deep_view(&self) -> LoadKeyView {
        LoadKeyView {
            load_out_dirs_from_check: self.load_out_dirs_from_check.deep_view(),
            proc_macro_server: self.proc_macro_server.deep_view(),
            ignored_proc_macros: self.ignored_proc_macros.deep_view(),
            proc_macro_processes: self.proc_macro_processes.deep_view(),
        }
    }
}

impl LoadKeyView {
    pub open spec fn fields(self) -> (bool, (ProcMacroServerKeyView, (Seq<(Seq<char>, Seq<Seq<char>>)>, u16))) {
        (self.load_out_dirs_from_check, (self.proc_macro_server, (self.ignored_proc_macros, self.proc_macro_processes)))
    }
}

impl Tokens for SharedAnalyzerLoadKey {
    open spec fn tokens(model: LoadKeyView) -> Seq<u32> {
        LoadKeyFields::tokens(model.fields())
    }

    proof fn split(a: LoadKeyView, b: LoadKeyView, x: Seq<u32>, y: Seq<u32>) {
        LoadKeyFields::split(a.fields(), b.fields(), x, y);
    }

    fn write(&self, out: &mut Vec<u32>) {
        let ghost r3 = <u16 as Tokens>::tokens(self.proc_macro_processes.deep_view());
        let ghost r2 = <Vec<(String, Vec<String>)> as Tokens>::tokens(self.ignored_proc_macros.deep_view()) + r3;
        let ghost r1 = <SharedAnalyzerProcMacroServerKey as Tokens>::tokens(self.proc_macro_server.deep_view()) + r2;
        write_field(&self.load_out_dirs_from_check, out, Ghost(r1));
        write_field(&self.proc_macro_server, out, Ghost(r2));
        write_field(&self.ignored_proc_macros, out, Ghost(r3));
        self.proc_macro_processes.write(out);
    }

    fn duplicate(&self) -> (r: Self) {
        SharedAnalyzerLoadKey {
            load_out_dirs_from_check: self.load_out_dirs_from_check.duplicate(),
            proc_macro_server: self.proc_macro_server.duplicate(),
            ignored_proc_macros: self.ignored_proc_macros.duplicate(),
            proc_macro_processes: self.proc_macro_processes.duplicate(),
        }
    }
}

/// Everything that must agree for two sessions to share one world.
#[derive(Debug)]
pub struct SharedAnalyzerWorldKey {
    pub cargo: SharedAnalyzerCargoConfigKey,
    pub database: SharedAnalyzerDatabaseConfigKey,
    pub load: SharedAnalyzerLoadKey,
}

#[verifier::ext_equal]
pub struct WorldKeyView {
    pub cargo: CargoConfigKeyView,
    pub database: DatabaseConfigKeyView,
    pub load: LoadKeyView,
}

type WorldKeyFields = (SharedAnalyzerCargoConfigKey, (SharedAnalyzerDatabaseConfigKey, SharedAnalyzerLoadKey));

impl DeepView for SharedAnalyzerWorldKey {
    type V = WorldKeyView;

    open spec fn deep_view(&self) -> WorldKeyView {
        WorldKeyView {
            cargo: self.cargo.deep_view(),
            database: self.database.deep_view(),
            load: self.load.deep_view(),
        }
    }
}

impl WorldKeyView {
    pub open spec fn fields(self) -> (CargoConfigKeyView, (DatabaseConfigKeyView, LoadKeyView)) {
        (self.cargo, (self.database, self.load))
    }
}

impl Tokens for SharedAnalyzerWorldKey {
    open spec fn tokens(model: WorldKeyView) -> Seq<u32> {
        WorldKeyFields::tokens(model.fields())
    }

    proof fn split(a: WorldKeyView, b: WorldKeyView, x: Seq<u32>, y: Seq<u32>) {
        WorldKeyFields::split(a.fields(), b.fields(), x, y);
    }

    fn write(&self, out: &mut Vec<u32>) {
        let ghost r2 = <SharedAnalyzerLoadKey as Tokens>::tokens(self.load.deep_view());
        let ghost r1 = <SharedAnalyzerDatabaseConfigKey as Tokens>::tokens(self.database.deep_view()) + r2;
        write_field(&self.cargo, out, Ghost(r1));
        write_field(&self.database, out, Ghost(r2));
        self.load.write(out);
    }

    fn duplicate(&self) -> (r: Self) {
        SharedAnalyzerWorldKey {
            cargo: self.cargo.duplicate(),
            database: self.database.duplicate(),
            load: self.load.duplicate(),
        }
    }
}

/// What one session sees of a world.
#[derive(Debug)]
pub struct SharedAnalyzerViewKey {
    pub projects: Vec<String>,
    pub excluded_paths: Vec<String>,
}

#[verifier::ext_equal]
pub struct ViewKeyView {
    pub projects: Seq<Seq<char>>,
    pub excluded_paths: Seq<Seq<char>>,
}

type ViewKeyFields = (Vec<String>, Vec<String>);

impl DeepView for SharedAnalyzerViewKey {
    type V = ViewKeyView;

    open spec fn deep_view(&self) -> ViewKeyView {
        ViewKeyView {
            projects: self.projects.deep_view(),
            excluded_paths: self.excluded_paths.deep_view(),
        }
    }
}

impl ViewKeyView {
    pub open spec fn fields(self) -> (Seq<Seq<char>>, Seq<Seq<char>>) {
        (self.projects, self.excluded_paths)
    }
}

impl Tokens for SharedAnalyzerViewKey {
    open spec fn tokens(model: ViewKeyView) -> Seq<u32> {
        ViewKeyFields::tokens(model.fields())
    }

    proof fn split(a: ViewKeyView, b: ViewKeyView, x: Seq<u32>, y: Seq<u32>) {
        ViewKeyFields::split(a.fields(), b.fields(), x, y);
    }

    fn write(&self, out: &mut Vec<u32>) {
        let ghost r1 = <Vec<String> as Tokens>::tokens(self.excluded_paths.deep_view());
        write_field(&self.projects, out, Ghost(r1));
        self.excluded_paths.write(out);
    }

    fn duplicate(&self) -> (r: Self) {
        SharedAnalyzerViewKey {
            projects: self.projects.duplicate(),
            excluded_paths: self.excluded_paths.duplicate(),
        }
    }
}

/// A world together with a view of it.
#[derive(Debug)]
pub struct SharedAnalyzerBackendKey {
    pub shared_world: SharedAnalyzerWorldKey,
    pub workspace_view: SharedAnalyzerViewKey,
}

#[verifier::ext_equal]
pub struct BackendKeyView {
    pub shared_world: WorldKeyView,
    pub workspace_view: ViewKeyView,
}

type BackendKeyFields = (SharedAnalyzerWorldKey, SharedAnalyzerViewKey);

impl DeepView for SharedAnalyzerBackendKey {
    type V = BackendKeyView;

    open spec fn deep_view(&self) -> BackendKeyView {
        BackendKeyView {
            shared_world: self.shared_world.deep_view(),
            workspace_view: self.workspace_view.deep_view(),
        }
    }
}

impl BackendKeyView {
    pub open spec fn fields(self) -> (WorldKeyView, ViewKeyView) {
        (self.shared_world, self.workspace_view)
    }
}

impl Tokens for SharedAnalyzerBackendKey {
    open spec fn tokens(model: BackendKeyView) -> Seq<u32> {
        BackendKeyFields::tokens(model.fields())
    }

    proof fn split(a: BackendKeyView, b: BackendKeyView, x: Seq<u32>, y: Seq<u32>) {
        BackendKeyFields::split(a.fields(), b.fields(), x, y);
    }

    fn write(&self, out: &mut Vec<u32>) {
        let ghost r1 = <SharedAnalyzerViewKey as Tokens>::tokens(self.workspace_view.deep_view());
        write_field(&self.shared_world, out, Ghost(r1));
        self.workspace_view.write(out);
    }

    fn duplicate(&self) -> (r: Self) {
        SharedAnalyzerBackendKey {
            shared_world: self.shared_world.duplicate(),
            workspace_view: self.workspace_view.duplicate(),
        }
    }
}

impl View for SharedAnalyzerWorldKey {
    type V = WorldKeyView;

    open spec fn view(&self) -> WorldKeyView {
        self.deep_view()
    }
}

impl OrderedKey for SharedAnalyzerWorldKey {
    open spec fn rank(model: WorldKeyView) -> Seq<u32> {
        <SharedAnalyzerWorldKey as Tokens>::tokens(model)
    }

    proof fn rank_injective(a: WorldKeyView, b: WorldKeyView) {
        lemma_tokens_injective::<SharedAnalyzerWorldKey>(a, b);
    }

    fn relation(&self, other: &Self) -> (r: Relation) {
        compare(self, other)
    }
}

impl View for SharedAnalyzerBackendKey {
    type V = BackendKeyView;

    open spec fn view(&self) -> BackendKeyView {
        self.deep_view()
    }
}

impl OrderedKey for SharedAnalyzerBackendKey {
    open spec fn rank(model: BackendKeyView) -> Seq<u32> {
        <SharedAnalyzerBackendKey as Tokens>::tokens(model)
    }

    proof fn rank_injective(a: BackendKeyView, b: BackendKeyView) {
        lemma_tokens_injective::<SharedAnalyzerBackendKey>(a, b);
    }

    fn relation(&self, other: &Self) -> (r: Relation) {
        compare(self, other)
    }
}

} // verus!
