//! The command line as values, and the decisions its commands make.
//! Parsing the command line and running the commands is left to the caller.
use vstd::prelude::*;

use crate::text::str_eq;
use crate::var::VarArg;

verus! {

/// Verbosity of the logs.
#[derive(Debug, Clone, Copy, PartialEq, Eq, Structural)]
pub enum LogLevel {
    Info,
    Debug,
    Trace,
}

/// Layout of the log lines.
#[derive(Debug, Clone, Copy, PartialEq, Eq, Structural)]
pub enum Formatter {
    Compact,
    Full,
}

/// Logging options: how many times `--verbose` was given.
#[derive(Debug, Clone, Copy)]
pub struct Instrumentation {
    pub verbose: u8,
}

impl Instrumentation {
    pub fn log_level(&self) -> (r: LogLevel)
        ensures
            r == (if self.verbose == 0 {
                LogLevel::Info
            } else if self.verbose == 1 {
                LogLevel::Debug
            } else {
                LogLevel::Trace
            }),
    {
        match self.verbose {
            0 => LogLevel::Info,
            1 => LogLevel::Debug,
            _ => LogLevel::Trace,
        }
    }

    pub fn formatter(&self) -> (r: Formatter)
        ensures
            r == (if self.verbose <= 1 {
                Formatter::Compact
            } else {
                Formatter::Full
            }),
    {
        if self.verbose <= 1 {
            Formatter::Compact
        } else {
            Formatter::Full
        }
    }
}

/// Where a resolved shader comes from: a file, by its canonical path, or a
/// built-in shader, by name.
#[derive(Debug, Clone)]
pub enum ShaderSource {
    Path(String),
    Builtin(String),
}

pub open spec fn source_view(s: ShaderSource) -> (bool, Seq<char>) {
    match s {
        ShaderSource::Path(p) => (true, p@),
        ShaderSource::Builtin(n) => (false, n@),
    }
}

pub open spec fn opt_source_view(s: Option<ShaderSource>) -> Option<(bool, Seq<char>)> {
    match s {
        Some(x) => Some(source_view(x)),
        None => None,
    }
}

/// The two (possibly absent) shaders are the same.
pub fn same_source(a: &Option<ShaderSource>, b: &Option<ShaderSource>) -> (r: bool)
    ensures
        r == (opt_source_view(*a) == opt_source_view(*b)),
{
    match (a, b) {
        (None, None) => true,
        (Some(ShaderSource::Path(x)), Some(ShaderSource::Path(y))) => str_eq(x.as_str(), y.as_str()),
        (Some(ShaderSource::Builtin(x)), Some(ShaderSource::Builtin(y))) => str_eq(
            x.as_str(),
            y.as_str(),
        ),
        _ => false,
    }
}

/// Activate the currently scheduled shader.
#[derive(Debug, Clone, Copy)]
pub struct Auto;

/// Show the current shader.
#[derive(Debug, Clone, Copy)]
pub struct Current {
    pub long: bool,
}

/// Install the shaders.
#[derive(Debug, Clone, Copy)]
pub struct Install {
    pub enable: bool,
}

/// List the shaders.
#[derive(Debug, Clone, Copy)]
pub struct Ls {
    pub long: bool,
}

/// Turn off the shader.
#[derive(Debug, Clone, Copy)]
pub struct Off;

/// Turn on a shader, with overrides.
#[derive(Debug)]
pub struct On {
    pub shader: String,
    pub var: Vec<VarArg>,
}

/// Toggle between a shader and a fallback.
#[derive(Debug)]
pub struct Toggle {
    pub shader: Option<String>,
    pub var: Vec<VarArg>,
    pub fallback: Option<String>,
    pub fallback_default: bool,
    pub fallback_auto: bool,
    pub var_fallback: Vec<VarArg>,
}

/// The fallback that a toggle asks for.
#[derive(Debug, Clone, PartialEq, Eq)]
pub enum FallbackKind {
    /// Turn the shader off.
    Off,
    /// The shader of this name or path.
    Named(String),
    /// The default shader of the configuration.
    Default,
    /// The scheduled shader, or the default one where that is the shader
    /// being toggled.
    Auto,
}

impl Toggle {
    /// The fallback the flags ask for; the option parser lets at most one of
    /// them be given.
    pub fn fallback_kind(&self) -> (r: FallbackKind)
        requires
            (self.fallback is Some) as int + (self.fallback_default as int) + (self.fallback_auto as int)
                <= 1,
        ensures
            match r {
                FallbackKind::Off => self.fallback is None && !self.fallback_default
                    && !self.fallback_auto,
                FallbackKind::Named(n) => self.fallback matches Some(f) && n@ == f@,
                FallbackKind::Default => self.fallback_default,
                FallbackKind::Auto => self.fallback_auto,
            },
    {
        match &self.fallback {
            Some(f) => FallbackKind::Named(f.clone()),
            None => if self.fallback_default {
                FallbackKind::Default
            } else if self.fallback_auto {
                FallbackKind::Auto
            } else {
                FallbackKind::Off
            },
        }
    }

    /// Whether the toggle turns to the fallback: it does when the shader to
    /// toggle is the one applied now.
    pub fn designates_fallback(shader: &Option<ShaderSource>, current: &Option<ShaderSource>) -> (r:
        bool)
        ensures
            r == (opt_source_view(*shader) == opt_source_view(*current)),
    {
        same_source(shader, current)
    }

    /// The fallback that `--fallback-auto` infers: the scheduled shader, or
    /// the default one when the scheduled shader is the one being toggled.
    pub fn auto_fallback(
        shader: &Option<ShaderSource>,
        scheduled: Option<ShaderSource>,
        default: Option<ShaderSource>,
    ) -> (r: Option<ShaderSource>)
        ensures
            r == (if opt_source_view(*shader) == opt_source_view(scheduled) {
                default
            } else {
                scheduled
            }),
    {
        if same_source(shader, &scheduled) {
            default
        } else {
            scheduled
        }
    }
}

/// The subcommands.
#[derive(Debug)]
pub enum HyprshadeSubcommand {
    Auto(Auto),
    Current(Current),
    Install(Install),
    Ls(Ls),
    Off(Off),
    On(On),
    Toggle(Toggle),
}

/// The whole command line.
#[derive(Debug)]
pub struct Cli {
    pub instrumentation: Instrumentation,
    pub config: Option<String>,
    pub command: HyprshadeSubcommand,
}

} // verus!
