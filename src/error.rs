//! The errors of the synchronisation process.
use vstd::prelude::*;
use crate::codec::{ReadError, WriteError};
use crate::paths::TreePath;

verus! {

/// The causes of an error during synchronisation. Paths of the local file
/// system are given as their text.
#[derive(Debug)]
pub enum SyncError {
    /// A replica changed between detection and propagation.
    PathModified(String),
    /// An I/O error, as its message, with what was being done.
    IoError(String, Option<String>),
    RootDoesntExist(String),
    AbsolutePathProvided(TreePath),
    ArchiveReadError(ReadError),
    ArchiveWriteError(WriteError),
    /// The requested operation was cancelled before it could be completed.
    Cancelled,
    WalkDirError(String),
    /// The file-copy tool was not found.
    RsyncNotFound(String),
}

/// The text of a read error.
pub open spec fn read_error_text(e: ReadError) -> Seq<char> {
    match e {
        ReadError::InvalidArchiveVersion(_) => "invalid archive version"@,
        ReadError::IoError(m) => "io error: "@ + m@,
        ReadError::DeserializeError => "corrupt archive body"@,
    }
}

/// The text of a write error.
pub open spec fn write_error_text(e: WriteError) -> Seq<char> {
    match e {
        WriteError::IoError(m) => "io error: "@ + m@,
    }
}

/// The text of an error, as shown to a user.
pub open spec fn error_text(e: SyncError) -> Seq<char> {
    match e {
        SyncError::PathModified(p) => "the file/directory at "@ + p@
            + " was modified by another application"@,
        SyncError::IoError(io, Some(m)) => "io error: "@ + io@ + ", ("@ + m@ + ")"@,
        SyncError::IoError(io, None) => "io error: "@ + io@,
        SyncError::RootDoesntExist(r) => "root does not exist: "@ + r@,
        SyncError::AbsolutePathProvided(p) => "the absolute path "@ + p.text()
            + " is invalid (hint: search directories must be relative to the replica root)"@,
        SyncError::ArchiveReadError(e) => "archive read error: "@ + read_error_text(e),
        SyncError::ArchiveWriteError(e) => "archive write error: "@ + write_error_text(e),
        SyncError::Cancelled => "operation cancelled"@,
        SyncError::WalkDirError(m) => "walk dir error: "@ + m@,
        SyncError::RsyncNotFound(p) => "rsync executable not found at: "@ + p@,
    }
}

fn read_error_message(e: &ReadError) -> (r: String)
    ensures
        r@ == read_error_text(*e),
{
    match e {
        ReadError::InvalidArchiveVersion(_) => String::from_str("invalid archive version"),
        ReadError::IoError(m) => String::from_str("io error: ").concat(m.as_str()),
        ReadError::DeserializeError => String::from_str("corrupt archive body"),
    }
}

fn write_error_message(e: &WriteError) -> (r: String)
    ensures
        r@ == write_error_text(*e),
{
    match e {
        WriteError::IoError(m) => String::from_str("io error: ").concat(m.as_str()),
    }
}

impl SyncError {
    /// The text of this error, as shown to a user.
    pub fn message(&self) -> (r: String)
        ensures
            r@ == error_text(*self),
    {
        match self {
            SyncError::PathModified(p) => String::from_str("the file/directory at ").concat(
                p.as_str(),
            ).concat(" was modified by another application"),
            SyncError::IoError(io, Some(m)) => String::from_str("io error: ").concat(
                io.as_str(),
            ).concat(", (").concat(m.as_str()).concat(")"),
            SyncError::IoError(io, None) => String::from_str("io error: ").concat(io.as_str()),
            SyncError::RootDoesntExist(r) => String::from_str("root does not exist: ").concat(
                r.as_str(),
            ),
            SyncError::AbsolutePathProvided(p) => {
                let text = p.to_text();
                String::from_str("the absolute path ").concat(text.as_str()).concat(
                    " is invalid (hint: search directories must be relative to the replica root)",
                )
            },
            SyncError::ArchiveReadError(e) => {
                let m = read_error_message(e);
                String::from_str("archive read error: ").concat(m.as_str())
            },
            SyncError::ArchiveWriteError(e) => {
                let m = write_error_message(e);
                String::from_str("archive write error: ").concat(m.as_str())
            },
            SyncError::Cancelled => String::from_str("operation cancelled"),
            SyncError::WalkDirError(m) => String::from_str("walk dir error: ").concat(m.as_str()),
            SyncError::RsyncNotFound(p) => String::from_str("rsync executable not found at: ").concat(
                p.as_str(),
            ),
        }
    }
}

} // verus!
