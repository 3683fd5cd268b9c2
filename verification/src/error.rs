//! Error codes of the filesystem.

use vstd::prelude::*;

verus! {

/// Filesystem operation error.
#[derive(Debug, Clone, Copy, PartialEq, Eq, Structural)]
pub enum Error {
    /// I/O error
    Io,
    /// filesystem corrupt
    Corrupt,
    /// no such file or directory
    NoEntry,
    /// file or directory already exists
    Exists,
    /// not a directory
    NotDir,
    /// is a directory
    IsDir,
    /// directory not empty
    NotEmpty,
    /// invalid parameter
    Invalid,
    /// no space left on device
    NoSpace,
    /// out of memory
    NoMemory,
    /// no such attribute
    NoAttribute,
    /// name too long
    NameTooLong,
    /// file too large
    FileTooBig,
}

/// Positive return values of the commit and orphan machinery.
pub const LFS_OK_RELOCATED: i32 = 1;
pub const LFS_OK_DROPPED: i32 = 2;
pub const LFS_OK_ORPHANED: i32 = 3;

/// The name of an error, as its `Debug` form prints it.
pub open spec fn error_name(e: Error) -> Seq<char> {
    match e {
        Error::Io => "Io"@,
        Error::Corrupt => "Corrupt"@,
        Error::NoEntry => "NoEntry"@,
        Error::Exists => "Exists"@,
        Error::NotDir => "NotDir"@,
        Error::IsDir => "IsDir"@,
        Error::NotEmpty => "NotEmpty"@,
        Error::Invalid => "Invalid"@,
        Error::NoSpace => "NoSpace"@,
        Error::NoMemory => "NoMemory"@,
        Error::NoAttribute => "NoAttribute"@,
        Error::NameTooLong => "NameTooLong"@,
        Error::FileTooBig => "FileTooBig"@,
    }
}

impl Error {
    /// The error's name, as its `Debug` form prints it.
    pub fn name(&self) -> (s: &'static str)
        ensures
            s@ == error_name(*self),
    {
        match self {
            Error::Io => "Io",
            Error::Corrupt => "Corrupt",
            Error::NoEntry => "NoEntry",
            Error::Exists => "Exists",
            Error::NotDir => "NotDir",
            Error::IsDir => "IsDir",
            Error::NotEmpty => "NotEmpty",
            Error::Invalid => "Invalid",
            Error::NoSpace => "NoSpace",
            Error::NoMemory => "NoMemory",
            Error::NoAttribute => "NoAttribute",
            Error::NameTooLong => "NameTooLong",
            Error::FileTooBig => "FileTooBig",
        }
    }
}

} // verus!
