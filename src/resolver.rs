//! How a shader argument is looked up, and the ways the lookup fails. The
//! lookup itself (on disk) is left to the caller.
use vstd::prelude::*;

verus! {

/// Separator of path components.
pub const MAIN_SEPARATOR: char = '/';

/// How to find a shader: by its path, or by its name.
#[derive(Debug, Clone)]
pub enum Resolver {
    WithPath(String),
    WithName(String),
}

impl Resolver {
    /// A command-line argument names a path when it holds a separator, and
    /// a shader name otherwise.
    pub fn with_cli_arg(shader: &str) -> (r: Resolver)
        ensures
            match r {
                Resolver::WithPath(p) => p@ == shader@ && shader@.contains(MAIN_SEPARATOR),
                Resolver::WithName(n) => n@ == shader@ && !shader@.contains(MAIN_SEPARATOR),
            },
    {
        let n = shader.unicode_len();
        let mut i: usize = 0;
        while i < n
            invariant
                n == shader@.len(),
                i <= n,
                forall|k: int| 0 <= k < i ==> shader@[k] != MAIN_SEPARATOR,
            decreases n - i,
        {
            if shader.get_char(i) == MAIN_SEPARATOR {
                return Resolver::with_path(shader);
            }
            i += 1;
        }
        Resolver::with_name(shader)
    }

    pub fn with_path(path: &str) -> (r: Resolver)
        ensures
            r matches Resolver::WithPath(p) && p@ == path@,
    {
        Resolver::WithPath(path.to_owned())
    }

    pub fn with_name(name: &str) -> (r: Resolver)
        ensures
            r matches Resolver::WithName(n) && n@ == name@,
    {
        Resolver::WithName(name.to_owned())
    }
}

/// Kind of a failed file-system access.
#[derive(Debug, Clone, Copy, PartialEq, Eq, Structural)]
pub enum IoErrorKind {
    NotFound,
    Other,
}

/// Failure to resolve a shader given by path.
#[derive(Debug, Clone)]
pub enum ErrorFromPath {
    /// The path could not be read.
    IoError(String, IoErrorKind),
    /// The path could not be made canonical.
    Canonicalize { path: String },
}

impl ErrorFromPath {
    /// The error for a path that does not exist.
    pub fn io_error_not_found(path: String) -> (r: ErrorFromPath)
        ensures
            r matches ErrorFromPath::IoError(p, k) && p@ == path@ && k == IoErrorKind::NotFound,
    {
        ErrorFromPath::IoError(path, IoErrorKind::NotFound)
    }
}

/// Failure to resolve a shader given by name.
#[derive(Debug, Clone)]
pub enum ErrorFromName {
    /// No shader has that name.
    ShaderNameNotFound(String),
    /// The file found could not be made canonical.
    Canonicalize { name: String, path: String },
}

} // verus!
