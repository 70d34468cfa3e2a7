//! The archive: what every replica looked like the last time they agreed.
//!
//! The archive holds one record set per directory. Each record maps the hash
//! of a child's path to the state of that child on every replica.
use vstd::prelude::*;
use crate::paths::TreePath;
use crate::state::ArchiveEntryPerReplica;

verus! {

/// The hash of a relative path; a key within one directory's record set.
pub type HashedPath = u64;

/// What FNV-1a (64-bit) gives for a byte string.
pub uninterp spec fn fnv1a(bytes: Seq<u8>) -> u64;

/// Relies on fnv::FnvHasher: `default`, then `write` of the bytes, then
/// `finish` give the 64-bit FNV-1a hash of those bytes, which depends on the
/// bytes alone.
#[verifier::external_body]
fn fnv1a_hash(bytes: &[u8]) -> (r: u64)
    ensures
        r == fnv1a(bytes@),
{
    let mut hasher = fnv::FnvHasher::default();
    std::hash::Hasher::write(&mut hasher, bytes);
    std::hash::Hasher::finish(&hasher)
}

/// The archive key of a path: FNV-1a over the UTF-8 bytes of its text.
pub open spec fn hash_of(path: &TreePath) -> u64 {
    fnv1a(vstd::utf8::encode_utf8(path.text()))
}

/// The archive, rooted at a directory of the local file system. Each
/// directory of the replicas has its record set in a file of that
/// directory, named by the decimal form of the directory's hash.
#[derive(Debug)]
pub struct Archive {
    pub directory: String,
}

impl Archive {
    pub fn new(directory: String) -> (r: Archive)
        ensures
            r.directory@ == directory@,
    {
        Archive { directory }
    }

    /// The key of `path` within its parent's record set, and the name of
    /// the record file of `path` when it is a directory.
    pub fn hash(path: &TreePath) -> (r: HashedPath)
        ensures
            r == hash_of(path),
    {
        let text = path.to_text();
        fnv1a_hash(text.as_str().as_bytes())
    }
}

/// One record: a hashed path and the state of that path on each replica.
pub type Record = (HashedPath, Vec<ArchiveEntryPerReplica>);

pub open spec fn record_view(r: Record) -> (u64, Seq<ArchiveEntryPerReplica>) {
    (r.0, r.1@)
}

pub open spec fn records_view(v: Seq<Record>) -> Seq<(u64, Seq<ArchiveEntryPerReplica>)> {
    v.map_values(|r: Record| record_view(r))
}

/// No hash occurs twice.
pub open spec fn keys_unique(s: Seq<(u64, Seq<ArchiveEntryPerReplica>)>) -> bool {
    forall|i: int, j: int| 0 <= i < j < s.len() ==> s[i].0 != s[j].0
}

pub open spec fn has_key(s: Seq<(u64, Seq<ArchiveEntryPerReplica>)>, k: u64) -> bool {
    exists|i: int| 0 <= i < s.len() && s[i].0 == k
}

/// The records as a map from hash to replica states.
pub open spec fn record_map(s: Seq<(u64, Seq<ArchiveEntryPerReplica>)>) -> Map<
    u64,
    Seq<ArchiveEntryPerReplica>,
> {
    Map::new(
        |k: u64| has_key(s, k),
        |k: u64| s[choose|i: int| 0 <= i < s.len() && s[i].0 == k].1,
    )
}

/// Every replica slot is `Empty`: the path is gone everywhere.
pub open spec fn all_empty(e: Seq<ArchiveEntryPerReplica>) -> bool {
    forall|i: int| 0 <= i < e.len() ==> e[i] is Empty
}

/// With unique keys, the map holds at each record's key that record's value.
proof fn lemma_record_map_at(s: Seq<(u64, Seq<ArchiveEntryPerReplica>)>, i: int)
    requires
        keys_unique(s),
        0 <= i < s.len(),
    ensures
        record_map(s).contains_key(s[i].0),
        record_map(s)[s[i].0] == s[i].1,
{
    let k = s[i].0;
    assert(has_key(s, k));
    let j = choose|j: int| 0 <= j < s.len() && s[j].0 == k;
    assert(j == i);
}

proof fn lemma_record_map_push(s: Seq<(u64, Seq<ArchiveEntryPerReplica>)>, r: (u64, Seq<ArchiveEntryPerReplica>))
    requires
        keys_unique(s),
        !has_key(s, r.0),
    ensures
        keys_unique(s.push(r)),
        record_map(s.push(r)) == record_map(s).insert(r.0, r.1),
{
    let t = s.push(r);
    assert forall|i: int, j: int| 0 <= i < j < t.len() implies t[i].0 != t[j].0 by {
        if j == s.len() {
            assert(s[i].0 == t[i].0);
        }
    }
    assert forall|k: u64| #[trigger] record_map(t).contains_key(k) == record_map(s).insert(r.0, r.1).contains_key(k) by {
        if has_key(t, k) && k != r.0 {
            let i = choose|i: int| 0 <= i < t.len() && t[i].0 == k;
            assert(s[i].0 == k);
        }
        if has_key(s, k) {
            let i = choose|i: int| 0 <= i < s.len() && s[i].0 == k;
            assert(t[i].0 == k);
        }
        if k == r.0 {
            assert(t[s.len() as int].0 == k);
        }
    }
    assert forall|k: u64| #[trigger] record_map(t).contains_key(k) implies record_map(t)[k] == record_map(s).insert(r.0, r.1)[k] by {
        let i = choose|i: int| 0 <= i < t.len() && t[i].0 == k;
        lemma_record_map_at(t, i);
        if i < s.len() {
            lemma_record_map_at(s, i);
        }
    }
    assert(record_map(t) =~= record_map(s).insert(r.0, r.1));
}

proof fn lemma_record_map_update(s: Seq<(u64, Seq<ArchiveEntryPerReplica>)>, i: int, v: Seq<ArchiveEntryPerReplica>)
    requires
        keys_unique(s),
        0 <= i < s.len(),
    ensures
        keys_unique(s.update(i, (s[i].0, v))),
        record_map(s.update(i, (s[i].0, v))) == record_map(s).insert(s[i].0, v),
{
    let t = s.update(i, (s[i].0, v));
    assert forall|a: int, b: int| 0 <= a < b < t.len() implies t[a].0 != t[b].0 by {
        assert(t[a].0 == s[a].0 && t[b].0 == s[b].0);
    }
    assert forall|k: u64| #[trigger] record_map(t).contains_key(k) == record_map(s).contains_key(k) by {
        if has_key(t, k) {
            let j = choose|j: int| 0 <= j < t.len() && t[j].0 == k;
            assert(s[j].0 == k);
        }
        if has_key(s, k) {
            let j = choose|j: int| 0 <= j < s.len() && s[j].0 == k;
            assert(t[j].0 == k);
        }
    }
    assert(record_map(s).contains_key(s[i].0)) by {
        lemma_record_map_at(s, i);
    }
    assert forall|k: u64| #[trigger] record_map(t).contains_key(k) implies record_map(t)[k] == record_map(s).insert(s[i].0, v)[k] by {
        let j = choose|j: int| 0 <= j < t.len() && t[j].0 == k;
        lemma_record_map_at(t, j);
        lemma_record_map_at(s, j);
    }
    assert(record_map(t) =~= record_map(s).insert(s[i].0, v));
}

/// The records of one directory, as read from or bound for its archive file.
/// `dirty` is set by every insertion, and tells that a write is due.
pub struct ArchiveEntries {
    entries: Vec<Record>,
    dirty: bool,
}

impl ArchiveEntries {
    /// The records in their stored order.
    pub closed spec fn records(&self) -> Seq<(u64, Seq<ArchiveEntryPerReplica>)> {
        records_view(self.entries@)
    }

    pub closed spec fn dirty(&self) -> bool {
        self.dirty
    }

    pub open spec fn wf(&self) -> bool {
        keys_unique(self.records())
    }

    /// The records as a map from hashed path to replica states.
    pub open spec fn view(&self) -> Map<u64, Seq<ArchiveEntryPerReplica>> {
        record_map(self.records())
    }

    /// No records, and no write due.
    pub fn empty() -> (r: ArchiveEntries)
        ensures
            r.wf(),
            r.records() == Seq::<(u64, Seq<ArchiveEntryPerReplica>)>::empty(),
            r@ == Map::<u64, Seq<ArchiveEntryPerReplica>>::empty(),
            !r.dirty(),
    {
        let r = ArchiveEntries { entries: Vec::new(), dirty: false };
        assert(r.records() =~= Seq::<(u64, Seq<ArchiveEntryPerReplica>)>::empty());
        assert(r@ =~= Map::<u64, Seq<ArchiveEntryPerReplica>>::empty());
        r
    }

    /// Records read back from a file, with no write due.
    pub(crate) fn from_records(entries: Vec<Record>) -> (r: ArchiveEntries)
        requires
            keys_unique(records_view(entries@)),
        ensures
            r.wf(),
            r.records() == records_view(entries@),
            !r.dirty(),
    {
        ArchiveEntries { entries, dirty: false }
    }

    /// The records in their stored order.
    pub fn iter(&self) -> (r: &[Record])
        ensures
            records_view(r@) == self.records(),
    {
        self.entries.as_slice()
    }

    pub fn len(&self) -> (r: usize)
        ensures
            r == self.records().len(),
    {
        self.entries.len()
    }

    pub fn is_dirty(&self) -> (r: bool)
        ensures
            r == self.dirty(),
    {
        self.dirty
    }

    /// The position of the record with key `hash`, if there is one.
    fn position(&self, hash: HashedPath) -> (r: Option<usize>)
        requires
            self.wf(),
        ensures
            r is None <==> !self@.contains_key(hash),
            r is Some ==> r->0 < self.records().len() && self.records()[r->0 as int].0 == hash,
    {
        let mut i: usize = 0;
        while i < self.entries.len()
            invariant
                i <= self.entries.len(),
                forall|j: int| 0 <= j < i ==> self.records()[j].0 != hash,
            decreases self.entries.len() - i,
        {
            if self.entries[i].0 == hash {
                assert(self.records()[i as int].0 == hash);
                assert(has_key(self.records(), hash));
                return Some(i);
            }
            i = i + 1;
        }
        assert(!has_key(self.records(), hash));
        None
    }

    /// The replica states recorded under `hash`.
    pub fn get_hashed(&self, hash: HashedPath) -> (r: Option<&Vec<ArchiveEntryPerReplica>>)
        requires
            self.wf(),
        ensures
            r is None <==> !self@.contains_key(hash),
            r is Some ==> r->0@ == self@[hash],
    {
        match self.position(hash) {
            Some(i) => {
                proof {
                    lemma_record_map_at(self.records(), i as int);
                }
                Some(&self.entries[i].1)
            },
            None => None,
        }
    }

    /// The replica states recorded for `path`.
    pub fn get(&self, path: &TreePath) -> (r: Option<&Vec<ArchiveEntryPerReplica>>)
        requires
            self.wf(),
        ensures
            r is None <==> !self@.contains_key(hash_of(path)),
            r is Some ==> r->0@ == self@[hash_of(path)],
    {
        self.get_hashed(Archive::hash(path))
    }

    /// Records `replicas` under `hash`, replacing what was there, and marks
    /// the set dirty.
    pub fn insert_hashed(&mut self, hash: HashedPath, replicas: Vec<ArchiveEntryPerReplica>)
        requires
            old(self).wf(),
        ensures
            final(self).wf(),
            final(self)@ == old(self)@.insert(hash, replicas@),
            final(self).dirty(),
    {
        let ghost before = self.records();
        match self.position(hash) {
            Some(i) => {
                proof {
                    lemma_record_map_update(before, i as int, replicas@);
                }
                self.entries.set(i, (hash, replicas));
                assert(self.records() =~= before.update(i as int, (before[i as int].0, replicas@)));
            },
            None => {
                proof {
                    lemma_record_map_push(before, (hash, replicas@));
                }
                self.entries.push((hash, replicas));
                assert(self.records() =~= before.push((hash, replicas@)));
            },
        }
        self.dirty = true;
    }

    /// Records `replicas` for `path`, replacing what was there, and marks the
    /// set dirty.
    pub fn insert(&mut self, path: &TreePath, replicas: Vec<ArchiveEntryPerReplica>)
        requires
            old(self).wf(),
        ensures
            final(self).wf(),
            final(self)@ == old(self)@.insert(hash_of(path), replicas@),
            final(self).dirty(),
    {
        let hash = Archive::hash(path);
        self.insert_hashed(hash, replicas);
    }

    /// Removes every record in which all replica slots are `Empty`; the other
    /// records keep their order.
    pub fn prune_deleted(&mut self)
        requires
            old(self).wf(),
        ensures
            final(self).wf(),
            final(self).records() == old(self).records().filter(
                |r: (u64, Seq<ArchiveEntryPerReplica>)| !all_empty(r.1),
            ),
            final(self).dirty() == old(self).dirty(),
    {
        let ghost before = self.records();
        let ghost keep = |r: (u64, Seq<ArchiveEntryPerReplica>)| !all_empty(r.1);
        let mut kept: Vec<Record> = Vec::new();
        let mut i: usize = 0;
        while i < self.entries.len()
            invariant
                i <= self.entries.len(),
                before == self.records(),
                keep == (|r: (u64, Seq<ArchiveEntryPerReplica>)| !all_empty(r.1)),
                records_view(kept@) == before.take(i as int).filter(keep),
            decreases self.entries.len() - i,
        {
            let mut empty = true;
            let mut j: usize = 0;
            while j < self.entries[i].1.len()
                invariant
                    i < self.entries.len(),
                    j <= self.entries[i as int].1.len(),
                    empty == all_empty(self.entries[i as int].1@.take(j as int)),
                decreases self.entries[i as int].1.len() - j,
            {
                if self.entries[i].1[j].entry_exists() {
                    empty = false;
                }
                proof {
                    let s = self.entries[i as int].1@;
                    if empty {
                        assert forall|k: int| 0 <= k < j + 1 implies (#[trigger] s.take(j + 1)[k]) is Empty by {
                            if k < j {
                                assert(s.take(j as int)[k] == s.take(j + 1)[k]);
                            }
                        }
                    } else {
                        if !all_empty(s.take(j as int)) {
                            let k = choose|k: int| 0 <= k < j && !(s.take(j as int)[k] is Empty);
                            assert(s.take(j + 1)[k] == s.take(j as int)[k]);
                        } else {
                            assert(s.take(j + 1)[j as int] == s[j as int]);
                        }
                    }
                }
                j = j + 1;
            }
            proof {
                assert(self.entries[i as int].1@.take(j as int) =~= self.entries[i as int].1@);
                assert(before.take(i + 1).drop_last() =~= before.take(i as int));
                assert(before.take(i + 1).last() == before[i as int]);
                assert(before[i as int] == record_view(self.entries@[i as int]));
                assert(before[i as int].1 == self.entries@[i as int].1@);
                assert(all_empty(self.entries@[i as int].1@) == empty);
                assert(keep(before[i as int]) == !all_empty(before[i as int].1));
                assert(keep(before[i as int]) == !empty);
            }
            if !empty {
                let ghost k0 = records_view(kept@);
                let hash = self.entries[i].0;
                let replicas = copy_entries(&self.entries[i].1);
                kept.push((hash, replicas));
                assert(records_view(kept@) =~= k0.push(before[i as int]));
            }
            proof {
                lemma_filter_step(before.take(i + 1), keep);
            }
            i = i + 1;
        }
        proof {
            assert(before.take(i as int) =~= before);
            lemma_filter_keys_unique(before, keep);
        }
        self.entries = kept;
    }
}

pub proof fn lemma_filter_step<A>(s: Seq<A>, keep: spec_fn(A) -> bool)
    requires
        s.len() > 0,
    ensures
        s.filter(keep) == (if keep(s.last()) {
            s.drop_last().filter(keep).push(s.last())
        } else {
            s.drop_last().filter(keep)
        }),
{
    reveal(Seq::filter);
}

proof fn lemma_filter_keys_unique(
    s: Seq<(u64, Seq<ArchiveEntryPerReplica>)>,
    keep: spec_fn((u64, Seq<ArchiveEntryPerReplica>)) -> bool,
)
    requires
        keys_unique(s),
    ensures
        keys_unique(s.filter(keep)),
    decreases s.len(),
{
    reveal(Seq::filter);
    if s.len() > 0 {
        let t = s.drop_last();
        assert(keys_unique(t));
        lemma_filter_keys_unique(t, keep);
        let f = t.filter(keep);
        if keep(s.last()) {
            assert forall|i: int| 0 <= i < f.len() implies f[i].0 != s.last().0 by {
                broadcast use vstd::seq_lib::group_filter_ensures;
                assert(f.contains(f[i]));
                t.lemma_filter_contains_rev(keep, f[i]);
                assert(t.contains(f[i]));
                let j = choose|j: int| 0 <= j < t.len() && t[j] == f[i];
                assert(s[j] == t[j]);
            }
            assert(s.filter(keep) == f.push(s.last()));
        }
    }
}

/// A copy of a list of replica states.
pub fn copy_entries(v: &Vec<ArchiveEntryPerReplica>) -> (r: Vec<ArchiveEntryPerReplica>)
    ensures
        r@ == v@,
{
    let mut r: Vec<ArchiveEntryPerReplica> = Vec::new();
    let mut i: usize = 0;
    while i < v.len()
        invariant
            i <= v.len(),
            r@ == v@.take(i as int),
        decreases v.len() - i,
    {
        r.push(v[i]);
        assert(r@ =~= v@.take(i + 1));
        i = i + 1;
    }
    assert(v@.take(i as int) =~= v@);
    r
}

} // verus!
