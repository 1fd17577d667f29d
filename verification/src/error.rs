//! Error taxonomy of the library.
//!
//! Resolution and read failures are captured as cached slot state, not
//! thrown; the enums here name the reasons. `MainNotSet` replaces the
//! assertion that a compile entry point exists: a main-source read while
//! no main is configured returns it as a typed error.

use vstd::prelude::*;

verus! {

/// Failure of resolving or reading one file.
#[derive(Clone, Copy, PartialEq, Eq, Structural, Debug)]
pub enum FileError {
    /// The path escapes the project root.
    AccessDenied,
    /// The file does not exist.
    NotFound,
    /// A transient operating-system failure.
    IoError,
}

/// Failure of resolving a package to an installed directory.
#[derive(Clone, Copy, PartialEq, Eq, Structural, Debug)]
pub enum PackageError {
    /// No candidate base directory holds the package.
    NotFound,
}

/// Failure of reading the project configuration.
#[derive(Clone, Copy, PartialEq, Eq, Structural, Debug)]
pub enum ProjectConfigError {
    /// The configuration file could not be read.
    IO,
    /// The configuration file could not be parsed.
    Serial,
}

/// Failure of a demand on the world as a whole.
#[derive(Clone, Copy, PartialEq, Eq, Structural, Debug)]
pub enum WorldError {
    /// A file-level failure.
    File(FileError),
    /// A compile-entry demand arrived while no main source is configured.
    MainNotSet,
}

/// Failure of a command-level request.
#[derive(Clone, Copy, PartialEq, Eq, Structural, Debug)]
pub enum Error {
    Unknown,
    UnknownProject,
    IO,
    TypstFile(FileError),
    UnrelatedPath,
}

impl Error {
    /// The user-visible description of the failure.
    pub fn message(&self) -> (r: String)
        ensures
            r@ == (match *self {
                Error::Unknown => "unknown error"@,
                Error::UnknownProject => "unknown project"@,
                Error::IO => "io error occurred"@,
                Error::TypstFile(e) => "typst file error occurred"@,
                Error::UnrelatedPath => "the provided path does not belong to the project"@,
            }),
    {
        match self {
            Error::Unknown => "unknown error".to_owned(),
            Error::UnknownProject => "unknown project".to_owned(),
            Error::IO => "io error occurred".to_owned(),
            Error::TypstFile(_) => "typst file error occurred".to_owned(),
            Error::UnrelatedPath => "the provided path does not belong to the project".to_owned(),
        }
    }
}

} // verus!
