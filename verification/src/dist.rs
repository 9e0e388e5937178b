//! The releases: for which targets they are built, how, and under which names.
use vstd::prelude::*;

verus! {

/// What is known of a release target.
#[derive(Debug)]
pub struct TargetSpec {
    pub triple: String,
    pub runner: String,
    pub container: Option<String>,
    pub zig_glibc: Option<String>,
    pub features: Vec<String>,
    pub rustflags: Vec<String>,
    pub pgo: bool,
}

#[verifier::ext_equal]
pub struct TargetView {
    pub triple: Seq<char>,
    pub runner: Seq<char>,
    pub container: Option<Seq<char>>,
    pub zig_glibc: Option<Seq<char>>,
    pub features: Seq<Seq<char>>,
    pub rustflags: Seq<Seq<char>>,
    pub pgo: bool,
}

impl View for TargetSpec {
    type V = TargetView;

    open spec fn view(&self) -> TargetView {
        TargetView {
            triple: self.triple@,
            runner: self.runner@,
            container: self.container.deep_view(),
            zig_glibc: self.zig_glibc.deep_view(),
            features: self.features.deep_view(),
            rustflags: self.rustflags.deep_view(),
            pgo: self.pgo,
        }
    }
}

pub open spec fn target_views(list: Seq<TargetSpec>) -> Seq<TargetView> {
    list.map_values(|t: TargetSpec| t@)
}

/// The release targets.
pub open spec fn release_targets() -> Seq<TargetView> {
    seq![
        TargetView {
            triple: "x86_64-pc-windows-msvc"@,
            runner: "windows-latest"@,
            container: None,
            zig_glibc: None,
            features: seq!["mimalloc"@],
            rustflags: seq!["-Ctarget-feature=+crt-static"@],
            pgo: true,
        },
        TargetView {
            triple: "i686-pc-windows-msvc"@,
            runner: "windows-latest"@,
            container: None,
            zig_glibc: None,
            features: seq!["mimalloc"@],
            rustflags: seq!["-Ctarget-feature=+crt-static"@],
            pgo: true,
        },
        TargetView {
            triple: "aarch64-pc-windows-msvc"@,
            runner: "windows-latest"@,
            container: None,
            zig_glibc: None,
            features: seq!["mimalloc"@],
            rustflags: seq!["-Ctarget-feature=+crt-static"@],
            pgo: false,
        },
        TargetView {
            triple: "x86_64-unknown-linux-gnu"@,
            runner: "ubuntu-latest"@,
            container: Some("quay.io/pypa/manylinux_2_28_x86_64"@),
            zig_glibc: None,
            features: Seq::empty(),
            rustflags: Seq::empty(),
            pgo: true,
        },
        TargetView {
            triple: "aarch64-unknown-linux-gnu"@,
            runner: "ubuntu-24.04-arm"@,
            container: Some("quay.io/pypa/manylinux_2_28_aarch64"@),
            zig_glibc: None,
            features: Seq::empty(),
            rustflags: Seq::empty(),
            pgo: true,
        },
        TargetView {
            triple: "arm-unknown-linux-gnueabihf"@,
            runner: "ubuntu-latest"@,
            container: None,
            zig_glibc: Some("2.28"@),
            features: Seq::empty(),
            rustflags: Seq::empty(),
            pgo: false,
        },
        TargetView {
            triple: "x86_64-apple-darwin"@,
            runner: "macos-14"@,
            container: None,
            zig_glibc: None,
            features: Seq::empty(),
            rustflags: Seq::empty(),
            pgo: true,
        },
        TargetView {
            triple: "aarch64-apple-darwin"@,
            runner: "macos-14"@,
            container: None,
            zig_glibc: None,
            features: Seq::empty(),
            rustflags: Seq::empty(),
            pgo: true,
        },
        TargetView {
            triple: "x86_64-unknown-linux-musl"@,
            runner: "ubuntu-latest"@,
            container: Some("rust:alpine"@),
            zig_glibc: None,
            features: Seq::empty(),
            rustflags: seq!["-Clink-arg=-fuse-ld=lld"@, "-Ctarget-feature=-crt-static"@],
            pgo: false,
        },
    ]
}

fn texts_none() -> (r: Vec<String>)
    ensures
        r.deep_view() == Seq::<Seq<char>>::empty(),
{
    let r: Vec<String> = Vec::new();
    proof {
        assert(r.deep_view() =~= Seq::<Seq<char>>::empty());
    }
    r
}

fn texts_one(a: &str) -> (r: Vec<String>)
    ensures
        r.deep_view() == seq![a@],
{
    let mut r: Vec<String> = Vec::new();
    r.push(String::from_str(a));
    proof {
        assert(r.deep_view() =~= seq![a@]);
    }
    r
}

fn texts_two(a: &str, b: &str) -> (r: Vec<String>)
    ensures
        r.deep_view() == seq![a@, b@],
{
    let mut r: Vec<String> = Vec::new();
    r.push(String::from_str(a));
    r.push(String::from_str(b));
    proof {
        assert(r.deep_view() =~= seq![a@, b@]);
    }
    r
}

/// The release targets.
pub fn targets() -> (list: Vec<TargetSpec>)
    ensures
        target_views(list@) == release_targets(),
{
    let mut list: Vec<TargetSpec> = Vec::new();
    list.push(
        TargetSpec {
            triple: String::from_str("x86_64-pc-windows-msvc"),
            runner: String::from_str("windows-latest"),
            container: None,
            zig_glibc: None,
            features: texts_one("mimalloc"),
            rustflags: texts_one("-Ctarget-feature=+crt-static"),
            pgo: true,
        },
    );
    list.push(
        TargetSpec {
            triple: String::from_str("i686-pc-windows-msvc"),
            runner: String::from_str("windows-latest"),
            container: None,
            zig_glibc: None,
            features: texts_one("mimalloc"),
            rustflags: texts_one("-Ctarget-feature=+crt-static"),
            pgo: true,
        },
    );
    list.push(
        TargetSpec {
            triple: String::from_str("aarch64-pc-windows-msvc"),
            runner: String::from_str("windows-latest"),
            container: None,
            zig_glibc: None,
            features: texts_one("mimalloc"),
            rustflags: texts_one("-Ctarget-feature=+crt-static"),
            pgo: false,
        },
    );
    list.push(
        TargetSpec {
            triple: String::from_str("x86_64-unknown-linux-gnu"),
            runner: String::from_str("ubuntu-latest"),
            container: Some(String::from_str("quay.io/pypa/manylinux_2_28_x86_64")),
            zig_glibc: None,
            features: texts_none(),
            rustflags: texts_none(),
            pgo: true,
        },
    );
    list.push(
        TargetSpec {
            triple: String::from_str("aarch64-unknown-linux-gnu"),
            runner: String::from_str("ubuntu-24.04-arm"),
            container: Some(String::from_str("quay.io/pypa/manylinux_2_28_aarch64")),
            zig_glibc: None,
            features: texts_none(),
            rustflags: texts_none(),
            pgo: true,
        },
    );
    list.push(
        TargetSpec {
            triple: String::from_str("arm-unknown-linux-gnueabihf"),
            runner: String::from_str("ubuntu-latest"),
            container: None,
            zig_glibc: Some(String::from_str("2.28")),
            features: texts_none(),
            rustflags: texts_none(),
            pgo: false,
        },
    );
    list.push(
        TargetSpec {
            triple: String::from_str("x86_64-apple-darwin"),
            runner: String::from_str("macos-14"),
            container: None,
            zig_glibc: None,
            features: texts_none(),
            rustflags: texts_none(),
            pgo: true,
        },
    );
    list.push(
        TargetSpec {
            triple: String::from_str("aarch64-apple-darwin"),
            runner: String::from_str("macos-14"),
            container: None,
            zig_glibc: None,
            features: texts_none(),
            rustflags: texts_none(),
            pgo: true,
        },
    );
    list.push(
        TargetSpec {
            triple: String::from_str("x86_64-unknown-linux-musl"),
            runner: String::from_str("ubuntu-latest"),
            container: Some(String::from_str("rust:alpine")),
            zig_glibc: None,
            features: texts_none(),
            rustflags: texts_two("-Clink-arg=-fuse-ld=lld", "-Ctarget-feature=-crt-static"),
            pgo: false,
        },
    );
    proof {
        assert(target_views(list@) =~= release_targets());
    }
    list
}

/// One part of a text equals another text.
pub open spec fn has_part(t: Seq<char>, part: Seq<char>) -> bool {
    exists|i: int| 0 <= i && i + part.len() <= t.len() && #[trigger] t.subrange(i, i + part.len()) == part
}

pub open spec fn has_suffix(t: Seq<char>, suffix: Seq<char>) -> bool {
    suffix.len() <= t.len() && t.skip(t.len() - suffix.len()) == suffix
}

fn part_at(t: &Vec<char>, part: &Vec<char>, at: usize) -> (r: bool)
    requires
        at + part@.len() <= t@.len(),
    ensures
        r == (t@.subrange(at as int, at + part@.len()) == part@),
{
    let mut i: usize = 0;
    while i < part.len()
        invariant
            i <= part.len(),
            at + part.len() <= t.len(),
            forall|j: int| 0 <= j < i ==> t@[at + j] == part@[j],
        decreases part.len() - i,
    {
        if t[at + i] != part[i] {
            proof {
                assert(t@.subrange(at as int, at + part@.len())[i as int] != part@[i as int]);
            }
            return false;
        }
        i = i + 1;
    }
    proof {
        assert(t@.subrange(at as int, at + part@.len()) =~= part@);
    }
    true
}

fn contains_part(t: &String, part: &str) -> (r: bool)
    ensures
        r == has_part(t@, part@),
{
    let chars = crate::ordered::chars_of(t.as_str());
    let want = crate::ordered::chars_of(part);
    if want.len() > chars.len() {
        return false;
    }
    let last = chars.len() - want.len();
    let mut i: usize = 0;
    while i < last
        invariant
            i <= last,
            last == chars.len() - want.len(),
            chars@ == t@,
            want@ == part@,
            forall|j: int| 0 <= j < i ==> #[trigger] t@.subrange(j, j + part@.len()) != part@,
        decreases last - i,
    {
        if part_at(&chars, &want, i) {
            proof {
                assert(t@.subrange(i as int, i + part@.len()) == part@);
            }
            return true;
        }
        i = i + 1;
    }
    part_at(&chars, &want, last)
}

fn ends_with(t: &String, suffix: &str) -> (r: bool)
    ensures
        r == has_suffix(t@, suffix@),
{
    let chars = crate::ordered::chars_of(t.as_str());
    let want = crate::ordered::chars_of(suffix);
    if want.len() > chars.len() {
        return false;
    }
    let at = chars.len() - want.len();
    proof {
        assert(t@.subrange(at as int, at + suffix@.len()) =~= t@.skip(at as int));
    }
    part_at(&chars, &want, at)
}

/// A release target, and what its build is called.
#[derive(Debug)]
pub struct Target {
    pub spec: TargetSpec,
    /// The target as the build is told of it.
    pub cargo_target: String,
    pub server_name: String,
    /// The file with debug symbols, where there is one.
    pub symbols_name: Option<String>,
}

impl TargetView {
    pub open spec fn cargo_target(self) -> Seq<char> {
        match self.zig_glibc {
            Some(glibc) => self.triple + "."@ + glibc,
            None => self.triple,
        }
    }

    pub open spec fn is_windows(self) -> bool {
        has_part(self.triple, "-windows-"@)
    }
}

impl Target {
    pub open spec fn is_of(self, t: TargetView) -> bool {
        &&& self.spec@ == t
        &&& self.cargo_target@ == t.cargo_target()
        &&& self.server_name@ == (if t.is_windows() {
            "analyzed.exe"@
        } else {
            "analyzed"@
        })
        &&& self.symbols_name.deep_view() == (if t.is_windows() {
            Some("analyzed.pdb"@)
        } else {
            None
        })
    }

    fn new(spec: TargetSpec) -> (r: Self)
        ensures
            r.is_of(spec@),
    {
        let cargo_target = match &spec.zig_glibc {
            Some(glibc) => {
                let mut name = spec.triple.clone();
                name.append(".");
                name.append(glibc.as_str());
                name
            },
            None => spec.triple.clone(),
        };
        let windows = contains_part(&spec.triple, "-windows-");
        let server_name = if windows {
            String::from_str("analyzed.exe")
        } else {
            String::from_str("analyzed")
        };
        let symbols_name = if windows {
            Some(String::from_str("analyzed.pdb"))
        } else {
            None
        };
        Target { spec, cargo_target, server_name, symbols_name }
    }

    /// The release target of a triple, if it is one.
    pub fn detect(triple: &String) -> (r: Option<Target>)
        ensures
            r is Some <==> exists|i: int| 0 <= i < release_targets().len() && (#[trigger] release_targets()[i]).triple == triple@,
            r matches Some(target) ==> exists|i: int|
                0 <= i < release_targets().len() && (#[trigger] release_targets()[i]).triple == triple@ && target.is_of(
                    release_targets()[i],
                ) && forall|j: int| 0 <= j < i ==> (#[trigger] release_targets()[j]).triple != triple@,
    {
        let mut list = targets();
        let ghost whole = list@;
        let ghost all = release_targets();
        let ghost mut i: int = 0;
        proof {
            assert(whole.skip(0) =~= whole);
            assert(all.len() == whole.len());
        }
        while list.len() > 0
            invariant
                0 <= i <= whole.len(),
                list@ == whole.skip(i),
                all == release_targets(),
                target_views(whole) == all,
                all.len() == whole.len(),
                forall|j: int| 0 <= j < i ==> (#[trigger] all[j]).triple != triple@,
            decreases list.len(),
        {
            let spec = list.remove(0);
            proof {
                assert(spec == whole[i]);
                assert(all[i] == spec@);
                assert(list@ =~= whole.skip(i + 1));
            }
            if spec.triple == *triple {
                let target = Target::new(spec);
                proof {
                    assert(all[i].triple == triple@ && target.is_of(all[i]));
                }
                return Some(target);
            }
            proof {
                i = i + 1;
            }
        }
        None
    }

    /// The version of the system that a build is for, where that has to be said.
    pub fn deployment_target(&self) -> (r: Option<String>)
        ensures
            r.deep_view() == (if has_suffix(self.spec.triple@, "-apple-darwin"@) {
                Some("14.0"@)
            } else {
                None
            }),
    {
        if ends_with(&self.spec.triple, "-apple-darwin") {
            Some(String::from_str("14.0"))
        } else {
            None
        }
    }

    /// The name of the archive: a target with debug symbols has them in it.
    pub fn archive_name(&self) -> (r: String)
        ensures
            r@ == "analyzed-"@ + self.spec.triple@ + (if self.symbols_name is Some {
                ".zip"@
            } else {
                ".tar.gz"@
            }),
    {
        let mut r = String::from_str("analyzed-");
        r.append(self.spec.triple.as_str());
        if self.symbols_name.is_some() {
            r.append(".zip");
        } else {
            r.append(".tar.gz");
        }
        r
    }
}

/// A command of a build, and the flags for the compiler where there are any.
#[derive(Debug)]
pub struct BuildCommand {
    pub args: Vec<String>,
    pub rustflags: Option<String>,
}

#[verifier::ext_equal]
pub struct CommandView {
    pub args: Seq<Seq<char>>,
    pub rustflags: Option<Seq<char>>,
}

impl View for BuildCommand {
    type V = CommandView;

    open spec fn view(&self) -> CommandView {
        CommandView { args: self.args.deep_view(), rustflags: self.rustflags.deep_view() }
    }
}

/// Texts with a space between each two.
pub open spec fn joined(list: Seq<Seq<char>>) -> Seq<char>
    decreases list.len(),
{
    if list.len() == 0 {
        Seq::empty()
    } else if list.len() == 1 {
        list[0]
    } else {
        joined(list.drop_last()) + " "@ + list.last()
    }
}

/// The flags for the features of a target.
pub open spec fn feature_args(features: Seq<Seq<char>>) -> Seq<Seq<char>>
    decreases features.len(),
{
    if features.len() == 0 {
        Seq::empty()
    } else {
        feature_args(features.drop_last()).push("--features"@).push(features.last())
    }
}

pub open spec fn flags(t: TargetView) -> Option<Seq<char>> {
    if joined(t.rustflags).len() == 0 {
        None
    } else {
        Some(joined(t.rustflags))
    }
}

pub open spec fn package_args(t: TargetView) -> Seq<Seq<char>> {
    seq!["-p"@, "analyzed"@, "--target"@, t.cargo_target()] + feature_args(t.features)
}

/// The command that builds a target whose build is not guided by profiles.
pub open spec fn plain_build(t: TargetView) -> CommandView {
    CommandView {
        args: seq![
            "cargo"@,
            if t.zig_glibc is Some {
                "zigbuild"@
            } else {
                "build"@
            },
        ] + package_args(t) + seq!["--release"@],
        rustflags: flags(t),
    }
}

/// The command that builds a target for profiles to be gathered.
pub open spec fn profiled_build(t: TargetView) -> CommandView {
    CommandView { args: seq!["cargo"@, "pgo"@, "build"@, "--"@] + package_args(t), rustflags: flags(t) }
}

/// The command that builds a target with its profiles.
pub open spec fn optimized_build(t: TargetView) -> CommandView {
    CommandView { args: seq!["cargo"@, "pgo"@, "optimize"@, "build"@, "--"@] + package_args(t), rustflags: flags(t) }
}

/// The commands of a build. Between the two of a guided build the profiles are gathered.
#[derive(Debug)]
pub enum BuildPlan {
    Plain(BuildCommand),
    Guided { instrument: BuildCommand, optimize: BuildCommand },
}

#[derive(Clone, Copy, Debug, PartialEq, Eq, Structural)]
pub enum BuildError {
    /// A guided build needs a directory to be trained on.
    NoTraining,
    /// The directory is not there.
    MissingTraining,
}

fn join_texts(list: &Vec<String>) -> (r: String)
    ensures
        r@ == joined(list.deep_view()),
{
    let ghost views = list.deep_view();
    let mut r = String::new();
    let mut i: usize = 0;
    proof {
        assert(views.len() == list@.len());
        assert(views.take(0) =~= Seq::empty());
    }
    while i < list.len()
        invariant
            i <= list.len(),
            views == list.deep_view(),
            views.len() == list@.len(),
            r@ == joined(views.take(i as int)),
        decreases list.len() - i,
    {
        proof {
            assert(views[i as int] == list@[i as int]@);
            assert(views.take(i + 1).drop_last() =~= views.take(i as int));
        }
        if i > 0 {
            r.append(" ");
        }
        r.append(list[i].as_str());
        proof {
            if i == 0 {
                assert(views.take(1)[0] == list@[0]@);
                assert(r@ =~= list@[0]@);
            }
        }
        i = i + 1;
    }
    proof {
        assert(views.take(i as int) =~= views);
    }
    r
}

fn push_text(list: &mut Vec<String>, text: &str)
    ensures
        final(list).deep_view() == old(list).deep_view().push(text@),
{
    list.push(String::from_str(text));
    proof {
        assert(list.deep_view() =~= old(list).deep_view().push(text@));
    }
}

impl Target {
    fn push_package_args(&self, args: &mut Vec<String>)
        requires
            self.is_of(self.spec@),
        ensures
            final(args).deep_view() == old(args).deep_view() + package_args(self.spec@),
    {
        let ghost start = args.deep_view();
        let ghost t = self.spec@;
        push_text(args, "-p");
        push_text(args, "analyzed");
        push_text(args, "--target");
        push_text(args, self.cargo_target.as_str());
        let ghost front = seq!["-p"@, "analyzed"@, "--target"@, t.cargo_target()];
        let mut i: usize = 0;
        proof {
            assert(t.features.len() == self.spec.features@.len());
            assert(t.features.take(0) =~= Seq::empty());
            assert(args.deep_view() =~= start + (front + feature_args(t.features.take(0))));
        }
        while i < self.spec.features.len()
            invariant
                i <= self.spec.features.len(),
                t == self.spec@,
                t.features.len() == self.spec.features@.len(),
                args.deep_view() == start + (front + feature_args(t.features.take(i as int))),
            decreases self.spec.features.len() - i,
        {
            push_text(args, "--features");
            push_text(args, self.spec.features[i].as_str());
            proof {
                assert(t.features[i as int] == self.spec.features@[i as int]@);
                assert(t.features.take(i + 1).drop_last() =~= t.features.take(i as int));
                assert(args.deep_view() =~= start + (front + feature_args(t.features.take(i + 1))));
            }
            i = i + 1;
        }
        proof {
            assert(t.features.take(i as int) =~= t.features);
        }
    }

    fn command(&self, args: Vec<String>) -> (r: BuildCommand)
        ensures
            r@ == (CommandView { args: args.deep_view(), rustflags: flags(self.spec@) }),
    {
        let joined = join_texts(&self.spec.rustflags);
        let rustflags = if joined.as_str().is_empty() {
            None
        } else {
            Some(joined)
        };
        BuildCommand { args, rustflags }
    }

    /// How the target is built, given whether there is a directory to be trained on, and whether it
    /// is there.
    pub fn build_plan(&self, training_dir: bool, training_exists: bool) -> (r: Result<BuildPlan, BuildError>)
        requires
            self.is_of(self.spec@),
        ensures
            match r {
                Ok(BuildPlan::Plain(command)) => !self.spec.pgo && command@ == plain_build(self.spec@),
                Ok(BuildPlan::Guided { instrument, optimize }) => self.spec.pgo && training_dir && training_exists
                    && instrument@ == profiled_build(self.spec@) && optimize@ == optimized_build(self.spec@),
                Err(BuildError::NoTraining) => self.spec.pgo && !training_dir,
                Err(BuildError::MissingTraining) => self.spec.pgo && training_dir && !training_exists,
            },
    {
        let ghost t = self.spec@;
        if !self.spec.pgo {
            let mut args: Vec<String> = Vec::new();
            proof {
                assert(args.deep_view() =~= Seq::empty());
            }
            push_text(&mut args, "cargo");
            if self.spec.zig_glibc.is_some() {
                push_text(&mut args, "zigbuild");
            } else {
                push_text(&mut args, "build");
            }
            self.push_package_args(&mut args);
            push_text(&mut args, "--release");
            proof {
                assert(args.deep_view() =~= plain_build(t).args);
            }
            return Ok(BuildPlan::Plain(self.command(args)));
        }
        if !training_dir {
            return Err(BuildError::NoTraining);
        }
        if !training_exists {
            return Err(BuildError::MissingTraining);
        }
        let mut args: Vec<String> = Vec::new();
        proof {
            assert(args.deep_view() =~= Seq::empty());
        }
        push_text(&mut args, "cargo");
        push_text(&mut args, "pgo");
        push_text(&mut args, "build");
        push_text(&mut args, "--");
        self.push_package_args(&mut args);
        proof {
            assert(args.deep_view() =~= profiled_build(t).args);
        }
        let instrument = self.command(args);
        let mut args: Vec<String> = Vec::new();
        proof {
            assert(args.deep_view() =~= Seq::empty());
        }
        push_text(&mut args, "cargo");
        push_text(&mut args, "pgo");
        push_text(&mut args, "optimize");
        push_text(&mut args, "build");
        push_text(&mut args, "--");
        self.push_package_args(&mut args);
        proof {
            assert(args.deep_view() =~= optimized_build(t).args);
        }
        let optimize = self.command(args);
        Ok(BuildPlan::Guided { instrument, optimize })
    }
}

/// Every release target is found by its triple.
pub proof fn law_release_triples_differ(i: int, j: int)
    requires
        0 <= i < release_targets().len(),
        0 <= j < release_targets().len(),
        release_targets()[i].triple == release_targets()[j].triple,
    ensures
        i == j,
{
    reveal_strlit("x86_64-pc-windows-msvc");
    reveal_strlit("i686-pc-windows-msvc");
    reveal_strlit("aarch64-pc-windows-msvc");
    reveal_strlit("x86_64-unknown-linux-gnu");
    reveal_strlit("aarch64-unknown-linux-gnu");
    reveal_strlit("arm-unknown-linux-gnueabihf");
    reveal_strlit("x86_64-apple-darwin");
    reveal_strlit("aarch64-apple-darwin");
    reveal_strlit("x86_64-unknown-linux-musl");
    if i != j {
        let a = release_targets()[i].triple;
        let b = release_targets()[j].triple;
        assert(a.len() != b.len() || a[0] != b[0]);
    }
}

/// A build is told of each feature of its target, of the package and of the target; a build for an
/// older C library names it behind the triple. Flags are handed on with spaces between them, and none
/// where there are none.
pub proof fn law_build_is_told_of_its_target(t: TargetView, i: int)
    requires
        0 <= i < t.features.len(),
    ensures
        package_args(t).len() == 4 + 2 * t.features.len(),
        package_args(t).take(3) == seq!["-p"@, "analyzed"@, "--target"@],
        t.zig_glibc is None ==> package_args(t)[3] == t.triple,
        t.zig_glibc matches Some(glibc) ==> package_args(t)[3] == t.triple + "."@ + glibc,
        package_args(t)[4 + 2 * i] == "--features"@,
        package_args(t)[5 + 2 * i] == t.features[i],
{
    lemma_feature_args(t.features, i);
    assert(package_args(t)[4 + 2 * i] == feature_args(t.features)[2 * i]);
    assert(package_args(t)[5 + 2 * i] == feature_args(t.features)[2 * i + 1]);
    assert(package_args(t).take(3) =~= seq!["-p"@, "analyzed"@, "--target"@]);
}

proof fn lemma_feature_args(features: Seq<Seq<char>>, i: int)
    requires
        0 <= i < features.len(),
    ensures
        feature_args(features).len() == 2 * features.len(),
        feature_args(features)[2 * i] == "--features"@,
        feature_args(features)[2 * i + 1] == features[i],
    decreases features.len(),
{
    let front = features.drop_last();
    reveal_with_fuel(feature_args, 2);
    if i < front.len() {
        lemma_feature_args(front, i);
        assert(front[i] == features[i]);
    } else if front.len() > 0 {
        lemma_feature_args(front, 0);
    }
    let before = feature_args(front);
    assert(before.len() == 2 * front.len());
    assert(feature_args(features) == before.push("--features"@).push(features.last()));
}

/// Flags are handed on in their order with a space between each two. Without flags nothing is.
pub proof fn law_flags_are_handed_on(t: TargetView, first: Seq<char>, flag: Seq<char>)
    ensures
        t.rustflags.len() == 0 ==> plain_build(t).rustflags is None,
        joined(seq![first]) == first,
        t.rustflags.len() > 0 ==> joined(t.rustflags.push(flag)) == joined(t.rustflags) + " "@ + flag,
        joined(t.rustflags).len() > 0 ==> plain_build(t).rustflags == Some(joined(t.rustflags)) && profiled_build(t).rustflags == Some(
            joined(t.rustflags),
        ) && optimized_build(t).rustflags == Some(joined(t.rustflags)),
{
    assert(t.rustflags.push(flag).drop_last() =~= t.rustflags);
}

/// A plain build is a release build; a guided one first builds for profiles to be gathered, then with
/// them.
pub proof fn law_builds_are_for_release(t: TargetView)
    ensures
        plain_build(t).args.len() == 3 + package_args(t).len(),
        plain_build(t).args[0] == "cargo"@,
        plain_build(t).args[1] == (if t.zig_glibc is Some { "zigbuild"@ } else { "build"@ }),
        plain_build(t).args.subrange(2, (2 + package_args(t).len()) as int) == package_args(t),
        plain_build(t).args.last() == "--release"@,
        profiled_build(t).args.take(4) == seq!["cargo"@, "pgo"@, "build"@, "--"@],
        profiled_build(t).args.skip(4) == package_args(t),
        optimized_build(t).args.take(5) == seq!["cargo"@, "pgo"@, "optimize"@, "build"@, "--"@],
        optimized_build(t).args.skip(5) == package_args(t),
{
    assert(plain_build(t).args.subrange(2, (2 + package_args(t).len()) as int) =~= package_args(t));
    assert(profiled_build(t).args.take(4) =~= seq!["cargo"@, "pgo"@, "build"@, "--"@]);
    assert(profiled_build(t).args.skip(4) =~= package_args(t));
    assert(optimized_build(t).args.take(5) =~= seq!["cargo"@, "pgo"@, "optimize"@, "build"@, "--"@]);
    assert(optimized_build(t).args.skip(5) =~= package_args(t));
}

} // verus!
