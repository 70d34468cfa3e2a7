//! Propagation: what to do on each replica to mirror a master replica's
//! state of a path, and how the archive is brought up to date afterwards.
//! The caller performs the removals and copies.
use vstd::prelude::*;
use crate::archive::{ArchiveEntries, HashedPath, Archive, hash_of, records_view, copy_entries};
use crate::detect::Difference;
use crate::error::SyncError;
use crate::paths::{TreePath, join_parts, path_text};
use crate::state::{ArchiveEntryPerReplica, same_kind, is_directory};

verus! {

/// One step of propagation on a replica.
#[derive(Debug, Clone, Copy, PartialEq, Eq, Structural)]
pub enum Action {
    RemoveFile,
    RemoveDirectory,
    CopyFile,
    CopyDirectory,
}

/// The steps that turn a replica holding `replica` into a copy of a master
/// holding `master`. Symlinks are not propagated.
pub open spec fn transition_spec(master: ArchiveEntryPerReplica, replica: ArchiveEntryPerReplica) -> Seq<Action> {
    match (master, replica) {
        (ArchiveEntryPerReplica::Empty, ArchiveEntryPerReplica::File(_)) => seq![Action::RemoveFile],
        (ArchiveEntryPerReplica::Empty, ArchiveEntryPerReplica::Directory(_)) => seq![Action::RemoveDirectory],
        (ArchiveEntryPerReplica::File(_), ArchiveEntryPerReplica::Directory(_)) => seq![
            Action::RemoveDirectory,
            Action::CopyFile,
        ],
        (ArchiveEntryPerReplica::File(_), _) => seq![Action::CopyFile],
        (ArchiveEntryPerReplica::Directory(_), ArchiveEntryPerReplica::File(_)) => seq![
            Action::RemoveFile,
            Action::CopyDirectory,
        ],
        (ArchiveEntryPerReplica::Directory(_), ArchiveEntryPerReplica::Directory(_)) => seq![
            Action::RemoveDirectory,
            Action::CopyDirectory,
        ],
        (ArchiveEntryPerReplica::Directory(_), _) => seq![Action::CopyDirectory],
        _ => Seq::empty(),
    }
}

/// What a replica holds after the steps `actions`, starting from `start`:
/// a removal leaves nothing, and a copy brings over what the master holds,
/// so the last step decides.
pub open spec fn state_after(
    start: ArchiveEntryPerReplica,
    actions: Seq<Action>,
    master: ArchiveEntryPerReplica,
) -> ArchiveEntryPerReplica {
    if actions.len() == 0 {
        start
    } else {
        match actions.last() {
            Action::RemoveFile | Action::RemoveDirectory => ArchiveEntryPerReplica::Empty,
            Action::CopyFile | Action::CopyDirectory => master,
        }
    }
}

/// The steps for one replica.
pub fn transition(master: &ArchiveEntryPerReplica, replica: &ArchiveEntryPerReplica) -> (r: Vec<Action>)
    requires
        !(master is Symlink),
        !(replica is Symlink),
    ensures
        r@ == transition_spec(*master, *replica),
{
    let r = match (master, replica) {
        (ArchiveEntryPerReplica::Empty, ArchiveEntryPerReplica::File(_)) => vec![Action::RemoveFile],
        (ArchiveEntryPerReplica::Empty, ArchiveEntryPerReplica::Directory(_)) => vec![Action::RemoveDirectory],
        (ArchiveEntryPerReplica::File(_), ArchiveEntryPerReplica::Directory(_)) => vec![
            Action::RemoveDirectory,
            Action::CopyFile,
        ],
        (ArchiveEntryPerReplica::File(_), _) => vec![Action::CopyFile],
        (ArchiveEntryPerReplica::Directory(_), ArchiveEntryPerReplica::File(_)) => vec![
            Action::RemoveFile,
            Action::CopyDirectory,
        ],
        (ArchiveEntryPerReplica::Directory(_), ArchiveEntryPerReplica::Directory(_)) => vec![
            Action::RemoveDirectory,
            Action::CopyDirectory,
        ],
        (ArchiveEntryPerReplica::Directory(_), _) => vec![Action::CopyDirectory],
        _ => Vec::new(),
    };
    assert(r@ =~= transition_spec(*master, *replica));
    r
}

/// After its steps, every replica holds an entry of the master's kind.
pub proof fn lemma_transition_mirrors_master(master: ArchiveEntryPerReplica, replica: ArchiveEntryPerReplica)
    requires
        !(master is Symlink),
        !(replica is Symlink),
    ensures
        same_kind(state_after(replica, transition_spec(master, replica), master), master),
{
}

/// The text of the path `parts` joined onto the root `root`; an absolute
/// path stands for itself.
pub open spec fn absolute_text(root: Seq<char>, absolute: bool, parts: Seq<Seq<char>>) -> Seq<char> {
    if absolute {
        path_text(true, parts)
    } else if parts.len() == 0 {
        root
    } else {
        root + seq!['/'] + join_parts(parts)
    }
}

impl Difference {
    /// The path of the difference below the root of replica `index`.
    pub fn absolute_path_for_root(&self, index: usize) -> (r: String)
        requires
            index < self.roots@.len(),
        ensures
            r@ == absolute_text(self.roots@[index as int]@, self.path.absolute, self.path.parts()),
    {
        if self.path.absolute {
            return self.path.to_text();
        }
        let mut r = self.roots[index].clone();
        if self.path.components.len() > 0 {
            proof {
                reveal_strlit("/");
            }
            r.append("/");
            let text = self.path.to_text();
            r.append(text.as_str());
        }
        r
    }
}

/// The steps for replica `index`, which was found holding `observed` just
/// now: `PathModified` if that is not the state recorded at detection,
/// else the steps that mirror the master replica `master`.
pub fn plan_replica(
    difference: &Difference,
    master: usize,
    index: usize,
    observed: &ArchiveEntryPerReplica,
) -> (r: Result<Vec<Action>, SyncError>)
    requires
        master < difference.current_state@.len(),
        index < difference.current_state@.len(),
        index < difference.roots@.len(),
        !(difference.current_state@[master as int] is Symlink),
        !(difference.current_state@[index as int] is Symlink),
    ensures
        *observed != difference.current_state@[index as int] ==> r is Err && r->Err_0 is PathModified
            && r->Err_0->PathModified_0@ == absolute_text(
            difference.roots@[index as int]@,
            difference.path.absolute,
            difference.path.parts(),
        ),
        *observed == difference.current_state@[index as int] ==> r is Ok && r->Ok_0@
            == transition_spec(
            difference.current_state@[master as int],
            difference.current_state@[index as int],
        ),
{
    if *observed != difference.current_state[index] {
        let path = difference.absolute_path_for_root(index);
        return Err(SyncError::PathModified(path));
    }
    Ok(transition(&difference.current_state[master], &difference.current_state[index]))
}

/// Some replica slot holds a directory.
pub open spec fn has_directory(s: Seq<ArchiveEntryPerReplica>) -> bool {
    exists|i: int| 0 <= i < s.len() && is_directory(#[trigger] s[i])
}

/// True iff some replica holds a directory.
pub fn any_directories_in(replicas: &[ArchiveEntryPerReplica]) -> (r: bool)
    ensures
        r == has_directory(replicas@),
{
    let mut i: usize = 0;
    while i < replicas.len()
        invariant
            i <= replicas@.len(),
            forall|k: int| 0 <= k < i ==> !is_directory(#[trigger] replicas@[k]),
        decreases replicas.len() - i,
    {
        if replicas[i].is_dir() {
            return true;
        }
        i = i + 1;
    }
    false
}

/// Whether the archive files below `path` are to be removed before the
/// archive is updated for it: its record in `entries`, the record set of its
/// parent, holds a directory on some replica.
pub fn needs_descendant_pruning(entries: &ArchiveEntries, path: &TreePath) -> (r: bool)
    requires
        entries.wf(),
    ensures
        r == (entries@.contains_key(hash_of(path)) && has_directory(entries@[hash_of(path)])),
{
    match entries.get(path) {
        Some(replicas) => any_directories_in(replicas.as_slice()),
        None => false,
    }
}

/// The hashes of the records that hold a directory on some replica, in
/// record order.
pub open spec fn directory_hashes(s: Seq<(u64, Seq<ArchiveEntryPerReplica>)>) -> Seq<u64>
    decreases s.len(),
{
    if s.len() == 0 {
        Seq::empty()
    } else {
        let rest = directory_hashes(s.drop_last());
        if has_directory(s.last().1) {
            rest.push(s.last().0)
        } else {
            rest
        }
    }
}

/// The children of a record set whose own archive files are to be visited
/// when the archive files below a directory are removed: those that hold a
/// directory on some replica.
pub fn directory_children(entries: &ArchiveEntries) -> (r: Vec<HashedPath>)
    ensures
        r@ == directory_hashes(entries.records()),
{
    let records = entries.iter();
    let mut r: Vec<HashedPath> = Vec::new();
    let mut i: usize = 0;
    while i < records.len()
        invariant
            i <= records@.len(),
            records_view(records@) == entries.records(),
            r@ == directory_hashes(entries.records().take(i as int)),
        decreases records.len() - i,
    {
        proof {
            let t = entries.records().take(i + 1);
            assert(t.drop_last() =~= entries.records().take(i as int));
            assert(t.last() == (records@[i as int].0, records@[i as int].1@));
        }
        if any_directories_in(records[i].1.as_slice()) {
            r.push(records[i].0);
        }
        i = i + 1;
    }
    assert(entries.records().take(i as int) =~= entries.records());
    r
}

/// The removal of the archive files below a directory: a depth-first walk
/// over archive files, from the directory's own file down through the
/// children that hold a directory on some replica.
#[derive(Debug)]
pub struct DescendantPruning {
    /// The archive files still to visit; the last one is visited next.
    pub stack: Vec<HashedPath>,
}

impl DescendantPruning {
    /// Starts at the archive file of `path`.
    pub fn start(path: &TreePath) -> (r: DescendantPruning)
        ensures
            r.stack@ == seq![hash_of(path)],
    {
        let mut stack: Vec<HashedPath> = Vec::new();
        stack.push(Archive::hash(path));
        assert(stack@ =~= seq![hash_of(path)]);
        DescendantPruning { stack }
    }

    /// The next archive file to read and remove, or `None` when done.
    pub fn next(&mut self) -> (r: Option<HashedPath>)
        ensures
            old(self).stack@.len() == 0 ==> r is None && final(self).stack@ == old(self).stack@,
            old(self).stack@.len() > 0 ==> r == Some(old(self).stack@.last())
                && final(self).stack@ == old(self).stack@.drop_last(),
    {
        self.stack.pop()
    }

    /// Records the children of a visited archive file that are to be
    /// visited too.
    pub fn visit(&mut self, entries: &ArchiveEntries)
        ensures
            final(self).stack@ == old(self).stack@ + directory_hashes(entries.records()),
    {
        let mut children = directory_children(entries);
        self.stack.append(&mut children);
    }
}

/// `m` with the pairs of `s` inserted in order.
pub open spec fn insert_all(
    m: Map<u64, Seq<ArchiveEntryPerReplica>>,
    s: Seq<(u64, Seq<ArchiveEntryPerReplica>)>,
) -> Map<u64, Seq<ArchiveEntryPerReplica>>
    decreases s.len(),
{
    if s.len() == 0 {
        m
    } else {
        insert_all(m, s.drop_last()).insert(s.last().0, s.last().1)
    }
}

pub open spec fn observations_view(v: Seq<(TreePath, Vec<ArchiveEntryPerReplica>)>) -> Seq<
    (u64, Seq<ArchiveEntryPerReplica>),
> {
    v.map_values(|c: (TreePath, Vec<ArchiveEntryPerReplica>)| (hash_of(&c.0), c.1@))
}

/// The record set of a directory that was just copied: each child's path
/// with its states on every replica, observed after the copy.
pub fn records_for_children(children: &Vec<(TreePath, Vec<ArchiveEntryPerReplica>)>) -> (r: ArchiveEntries)
    ensures
        r.wf(),
        r@ == insert_all(Map::empty(), observations_view(children@)),
        r.dirty() == (children@.len() > 0),
{
    let mut entries = ArchiveEntries::empty();
    let mut i: usize = 0;
    while i < children.len()
        invariant
            i <= children@.len(),
            entries.wf(),
            entries@ == insert_all(Map::empty(), observations_view(children@).take(i as int)),
            entries.dirty() == (i > 0),
        decreases children.len() - i,
    {
        proof {
            let t = observations_view(children@).take(i + 1);
            assert(t.drop_last() =~= observations_view(children@).take(i as int));
        }
        entries.insert(&children[i].0, copy_entries(&children[i].1));
        i = i + 1;
    }
    assert(observations_view(children@).take(i as int) =~= observations_view(children@));
    entries
}

/// How the caller removes files and directories during propagation.
pub trait PropagationOptions {
    /// Return false to cancel the removal, and with it the propagation of
    /// this difference.
    fn should_remove(&self, path: &str) -> bool;

    /// Removes the file (or moves it to the trash); an error if it was not
    /// removed.
    fn remove_file(&self, path: &str) -> Result<(), SyncError>;

    /// Removes the directory and its contents; an error if it was not
    /// removed, since the archive would otherwise record replicas that are
    /// still apart.
    fn remove_dir_all(&self, path: &str) -> Result<(), SyncError>;
}

} // verus!
