use super::text::str_eq;
use vstd::prelude::*;

verus! {

/// The platform that a game is built for.
#[derive(Debug, Clone, Copy, PartialEq, Eq, Structural)]
pub enum BuildTarget {
    Native,
    WebAssembly,
    Windows,
    Linux,
    MacOS,
}

/// How much the build optimizes.
#[derive(Debug, Clone, Copy, PartialEq, Eq, Structural)]
pub enum OptimizeLevel {
    Debug,
    Release,
    /// Optimize for size.
    ReleaseSmall,
}

/// What a finished build left behind.
#[derive(Debug)]
pub struct BuildResult {
    pub executable_path: String,
    pub assets_path: String,
    pub size_bytes: u64,
    pub warnings: Vec<String>,
}

/// The settings of one build of a project of type `P`.
pub struct GameCompiler<P> {
    project: P,
    target: BuildTarget,
    optimize_level: OptimizeLevel,
}

impl<P> GameCompiler<P> {
    /// The project to build.
    pub closed spec fn spec_project(&self) -> P {
        self.project
    }

    /// The platform to build for.
    pub closed spec fn spec_target(&self) -> BuildTarget {
        self.target
    }

    /// How much the build optimizes.
    pub closed spec fn spec_optimize_level(&self) -> OptimizeLevel {
        self.optimize_level
    }

    /// A build of `project` for `target`, optimized as a release.
    pub fn new(project: P, target: BuildTarget) -> (compiler: Self)
        ensures
            compiler.spec_project() == project,
            compiler.spec_target() == target,
            compiler.spec_optimize_level() == OptimizeLevel::Release,
    {
        Self { project, target, optimize_level: OptimizeLevel::Release }
    }

    /// The same build, optimized as `level` says.
    pub fn with_optimization(self, level: OptimizeLevel) -> (compiler: Self)
        ensures
            compiler.spec_project() == self.spec_project(),
            compiler.spec_target() == self.spec_target(),
            compiler.spec_optimize_level() == level,
    {
        let mut compiler = self;
        compiler.optimize_level = level;
        compiler
    }

    /// The project to build.
    pub fn project(&self) -> (project: &P)
        ensures
            *project == self.spec_project(),
    {
        &self.project
    }

    /// The platform to build for.
    pub fn target(&self) -> (target: BuildTarget)
        ensures
            target == self.spec_target(),
    {
        self.target
    }

    /// How much the build optimizes.
    pub fn optimize_level(&self) -> (level: OptimizeLevel)
        ensures
            level == self.spec_optimize_level(),
    {
        self.optimize_level
    }
}

/// The characters of each text of `texts`, in order.
pub open spec fn views(texts: Seq<&'static str>) -> Seq<Seq<char>> {
    Seq::new(texts.len(), |i: int| texts[i]@)
}

impl OptimizeLevel {
    /// The value of `opt-level` in the build profile, as it is written in
    /// the manifest of the generated crate.
    pub open spec fn opt_level_text(self) -> Seq<char> {
        match self {
            OptimizeLevel::Debug => "0"@,
            OptimizeLevel::Release => "3"@,
            OptimizeLevel::ReleaseSmall => "\"z\""@,
        }
    }

    /// The arguments that choose the build profile.
    pub open spec fn profile_args(self) -> Seq<Seq<char>> {
        match self {
            OptimizeLevel::Debug => seq![],
            OptimizeLevel::Release => seq!["--release"@],
            OptimizeLevel::ReleaseSmall => seq!["--profile"@, "release-small"@],
        }
    }

    /// The value of `opt-level` in the build profile, as it is written in
    /// the manifest of the generated crate.
    pub fn opt_level(self) -> (text: &'static str)
        ensures
            text@ == self.opt_level_text(),
    {
        match self {
            OptimizeLevel::Debug => "0",
            OptimizeLevel::Release => "3",
            OptimizeLevel::ReleaseSmall => "\"z\"",
        }
    }
}

impl BuildTarget {
    /// The target that a name chosen in the editor stands for.
    pub open spec fn named(name: Seq<char>) -> Option<BuildTarget> {
        if name == "native"@ {
            Some(BuildTarget::Native)
        } else if name == "web"@ {
            Some(BuildTarget::WebAssembly)
        } else if name == "windows"@ {
            Some(BuildTarget::Windows)
        } else if name == "linux"@ {
            Some(BuildTarget::Linux)
        } else if name == "macos"@ {
            Some(BuildTarget::MacOS)
        } else {
            None
        }
    }

    /// The target that `name` stands for, or nothing when it stands for
    /// none.
    pub fn from_name(name: &str) -> (target: Option<BuildTarget>)
        ensures
            target == BuildTarget::named(name@),
    {
        if str_eq(name, "native") {
            Some(BuildTarget::Native)
        } else if str_eq(name, "web") {
            Some(BuildTarget::WebAssembly)
        } else if str_eq(name, "windows") {
            Some(BuildTarget::Windows)
        } else if str_eq(name, "linux") {
            Some(BuildTarget::Linux)
        } else if str_eq(name, "macos") {
            Some(BuildTarget::MacOS)
        } else {
            None
        }
    }

    /// The arguments that start the build and choose the platform. The
    /// targets without a cross-compilation triple build for the host.
    pub open spec fn platform_args(self) -> Seq<Seq<char>> {
        match self {
            BuildTarget::WebAssembly => seq!["build"@, "--target"@, "wasm32-unknown-unknown"@],
            BuildTarget::Windows => seq!["build"@, "--target"@, "x86_64-pc-windows-gnu"@],
            _ => seq!["build"@],
        }
    }

    /// Whether the packaged game gets a launcher script.
    pub fn needs_launcher(self) -> (needed: bool)
        ensures
            needed == (self == BuildTarget::Linux || self == BuildTarget::MacOS),
    {
        match self {
            BuildTarget::Linux => true,
            BuildTarget::MacOS => true,
            _ => false,
        }
    }

    /// What follows the name of the game in the name of its executable.
    pub fn executable_suffix(self) -> (suffix: &'static str)
        ensures
            suffix@ == (if self == BuildTarget::Windows {
                ".exe"@
            } else {
                ""@
            }),
    {
        match self {
            BuildTarget::Windows => ".exe",
            _ => "",
        }
    }
}

/// The arguments of the build command: those that choose the platform,
/// then those that choose the profile.
pub open spec fn build_args(target: BuildTarget, level: OptimizeLevel) -> Seq<Seq<char>> {
    target.platform_args() + level.profile_args()
}

/// The arguments with which the build tool is run for `target` at
/// optimization `level`.
pub fn cargo_build_args(target: BuildTarget, level: OptimizeLevel) -> (args: Vec<&'static str>)
    ensures
        views(args@) == build_args(target, level),
{
    let mut args: Vec<&'static str> = Vec::new();
    args.push("build");
    match target {
        BuildTarget::WebAssembly => {
            args.push("--target");
            args.push("wasm32-unknown-unknown");
        },
        BuildTarget::Windows => {
            args.push("--target");
            args.push("x86_64-pc-windows-gnu");
        },
        _ => {},
    }
    match level {
        OptimizeLevel::Debug => {},
        OptimizeLevel::Release => {
            args.push("--release");
        },
        OptimizeLevel::ReleaseSmall => {
            args.push("--profile");
            args.push("release-small");
        },
    }
    assert(views(args@) =~= build_args(target, level));
    args
}

} // verus!
