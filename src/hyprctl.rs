//! The commands given to `hyprctl` to read, set and clear the screen shader,
//! and the reading of its reply. Running the program is left to the caller.
use vstd::prelude::*;

use crate::text::{str_eq, views};

verus! {

/// Name of the program that controls the compositor.
pub const PROGRAM_NAME: &'static str = "hyprctl";

/// The option's value that means no shader is applied.
pub open spec fn empty_marker() -> Seq<char> {
    "[[EMPTY]]"@
}

pub open spec fn variable_name() -> Seq<char> {
    "decoration:screen_shader"@
}

/// The reply of `hyprctl -j getoption`.
#[derive(Debug, Clone)]
pub struct HyprctlOption {
    pub option: String,
    pub str: String,
    pub set: bool,
}

impl HyprctlOption {
    /// The option holds no shader.
    pub fn is_empty(&self) -> (r: bool)
        ensures
            r == (self.str@ == empty_marker() || self.str@.len() == 0),
    {
        str_eq(self.str.as_str(), "[[EMPTY]]") || self.str.as_str().unicode_len() == 0
    }

    /// The shader path the option holds, if any.
    pub fn into_value(self) -> (r: Option<String>)
        ensures
            match r {
                Some(s) => s@ == self.str@ && s@ != empty_marker() && s@.len() > 0,
                None => self.str@ == empty_marker() || self.str@.len() == 0,
            },
    {
        if self.is_empty() {
            None
        } else {
            Some(self.str)
        }
    }
}

fn owned(s: &str) -> (r: String)
    ensures
        r@ == s@,
{
    s.to_owned()
}

/// Arguments that ask for the current shader option as JSON.
pub fn get_args() -> (r: Vec<String>)
    ensures
        views(r@) == seq!["-j"@, "getoption"@, variable_name()],
{
    let r = vec![owned("-j"), owned("getoption"), owned("decoration:screen_shader")];
    assert(views(r@) =~= seq!["-j"@, "getoption"@, variable_name()]);
    r
}

/// The current shader path, read from the reply to [`get_args`].
pub fn get(option: HyprctlOption) -> (r: Option<String>)
    ensures
        match r {
            Some(s) => s@ == option.str@ && s@ != empty_marker() && s@.len() > 0,
            None => option.str@ == empty_marker() || option.str@.len() == 0,
        },
{
    option.into_value()
}

/// Arguments that set the screen shader to `shader_path`.
pub fn set(shader_path: &str) -> (r: Vec<String>)
    ensures
        views(r@) == seq!["keyword"@, variable_name(), shader_path@],
{
    let r = vec![owned("keyword"), owned("decoration:screen_shader"), owned(shader_path)];
    assert(views(r@) =~= seq!["keyword"@, variable_name(), shader_path@]);
    r
}

/// Arguments that turn the screen shader off.
pub fn clear() -> (r: Vec<String>)
    ensures
        views(r@) == seq!["keyword"@, variable_name(), empty_marker()],
{
    let r = vec![owned("keyword"), owned("decoration:screen_shader"), owned("[[EMPTY]]")];
    assert(views(r@) =~= seq!["keyword"@, variable_name(), empty_marker()]);
    r
}

/// Why a run of `hyprctl` failed, as its exit status tells.
#[derive(Debug, Clone, Copy, PartialEq, Eq, Structural)]
pub enum StatusError {
    /// It was ended by this signal.
    Signal(i32),
    /// It exited with this code.
    ExitCode(i32),
    /// Neither a signal nor a code is known.
    Unknown,
}

/// The outcome of a run from its exit status: success, or else the signal
/// that ended it, or else its exit code.
pub fn check_status(success: bool, signal: Option<i32>, code: Option<i32>) -> (r: Result<(), StatusError>)
    ensures
        r == (if success {
            Ok(())
        } else {
            match (signal, code) {
                (Some(s), _) => Err(StatusError::Signal(s)),
                (None, Some(c)) => Err(StatusError::ExitCode(c)),
                (None, None) => Err(StatusError::Unknown),
            }
        }),
{
    if success {
        Ok(())
    } else if let Some(s) = signal {
        Err(StatusError::Signal(s))
    } else if let Some(c) = code {
        Err(StatusError::ExitCode(c))
    } else {
        Err(StatusError::Unknown)
    }
}

} // verus!
