//! What a path looks like on one replica, and the freshness token that stands
//! in for its contents.
use vstd::prelude::*;

verus! {

/// The freshness token of an existing path: inode number and change time.
/// While both are unchanged, the contents are presumed unchanged.
#[derive(Clone, Copy, Debug, PartialEq, Eq, Structural)]
pub struct ArchiveEntryExists {
    pub ino: u64,
    pub ctime: i64,
}

/// The state of a path on one replica.
#[derive(Clone, Copy, Debug, PartialEq, Eq, Structural)]
pub enum ArchiveEntryPerReplica {
    Empty,
    Directory(ArchiveEntryExists),
    File(ArchiveEntryExists),
    Symlink(ArchiveEntryExists),
}

/// The kind of an entry, with its freshness token left out.
pub open spec fn same_kind(a: ArchiveEntryPerReplica, b: ArchiveEntryPerReplica) -> bool {
    match (a, b) {
        (ArchiveEntryPerReplica::Empty, ArchiveEntryPerReplica::Empty) => true,
        (ArchiveEntryPerReplica::Directory(_), ArchiveEntryPerReplica::Directory(_)) => true,
        (ArchiveEntryPerReplica::File(_), ArchiveEntryPerReplica::File(_)) => true,
        (ArchiveEntryPerReplica::Symlink(_), ArchiveEntryPerReplica::Symlink(_)) => true,
        _ => false,
    }
}

pub open spec fn file_or_symlink(e: ArchiveEntryPerReplica) -> bool {
    e is File || e is Symlink
}

pub open spec fn exists_on_replica(e: ArchiveEntryPerReplica) -> bool {
    !(e is Empty)
}

pub open spec fn is_directory(e: ArchiveEntryPerReplica) -> bool {
    e is Directory
}

impl ArchiveEntryPerReplica {
    /// True when both entries are of one kind, whatever their tokens.
    pub fn equal_ty(a: &ArchiveEntryPerReplica, b: &ArchiveEntryPerReplica) -> (r: bool)
        ensures
            r == same_kind(*a, *b),
    {
        match (a, b) {
            (ArchiveEntryPerReplica::Empty, ArchiveEntryPerReplica::Empty) => true,
            (ArchiveEntryPerReplica::Directory(_), ArchiveEntryPerReplica::Directory(_)) => true,
            (ArchiveEntryPerReplica::File(_), ArchiveEntryPerReplica::File(_)) => true,
            (ArchiveEntryPerReplica::Symlink(_), ArchiveEntryPerReplica::Symlink(_)) => true,
            _ => false,
        }
    }

    /// True for a file or a symlink.
    pub fn is_file_or_symlink(&self) -> (r: bool)
        ensures
            r == file_or_symlink(*self),
    {
        match self {
            ArchiveEntryPerReplica::File(_) | ArchiveEntryPerReplica::Symlink(_) => true,
            _ => false,
        }
    }

    /// True unless the path is absent on this replica.
    pub fn entry_exists(&self) -> (r: bool)
        ensures
            r == exists_on_replica(*self),
    {
        match self {
            ArchiveEntryPerReplica::Empty => false,
            _ => true,
        }
    }

    /// True for a directory.
    pub fn is_dir(&self) -> (r: bool)
        ensures
            r == is_directory(*self),
    {
        match self {
            ArchiveEntryPerReplica::Directory(_) => true,
            _ => false,
        }
    }
}

} // verus!
