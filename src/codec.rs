//! The byte layout of an archive file.
//!
//! A file holds a little-endian `u32` version tag, a little-endian `u64`
//! count of records, then each record: its hash as a little-endian `u64`,
//! followed by one tagged entry per replica. An entry is one tag byte
//! (`0` Empty, `1` Directory, `2` File, `3` Symlink), and for every tag but
//! `0` the inode and the change time, each as eight little-endian bytes.
use vstd::prelude::*;
use crate::archive::{
    ArchiveEntries, Record, records_view, keys_unique, has_key, all_empty,
};
use crate::state::{ArchiveEntryExists, ArchiveEntryPerReplica};

verus! {

/// The version tag that this library writes and accepts.
pub const ARCHIVE_VERSION: u32 = 3;

/// The number that `b` stands for, least significant byte first.
pub open spec fn le_value(b: Seq<u8>) -> nat
    decreases b.len(),
{
    if b.len() == 0 {
        0
    } else {
        b[0] as nat + 256 * le_value(b.drop_first())
    }
}

/// The `width` bytes of `n`, least significant first.
pub open spec fn le_bytes(n: nat, width: nat) -> Seq<u8>
    decreases width,
{
    if width == 0 {
        Seq::empty()
    } else {
        seq![(n % 256) as u8] + le_bytes(n / 256, (width - 1) as nat)
    }
}

pub open spec fn pow256(width: nat) -> nat
    decreases width,
{
    if width == 0 {
        1
    } else {
        256 * pow256((width - 1) as nat)
    }
}

/// Relies on byteorder's `LittleEndian::read_u32`: the value of four bytes,
/// least significant first.
#[verifier::external_body]
fn read_le_u32(b: &[u8], at: usize) -> (r: u32)
    requires
        at + 4 <= b@.len(),
    ensures
        r as nat == le_value(b@.subrange(at as int, at + 4)),
{
    <byteorder::LittleEndian as byteorder::ByteOrder>::read_u32(&b[at..at + 4])
}

/// Relies on byteorder's `LittleEndian::read_u64`: the value of eight bytes,
/// least significant first.
#[verifier::external_body]
fn read_le_u64(b: &[u8], at: usize) -> (r: u64)
    requires
        at + 8 <= b@.len(),
    ensures
        r as nat == le_value(b@.subrange(at as int, at + 8)),
{
    <byteorder::LittleEndian as byteorder::ByteOrder>::read_u64(&b[at..at + 8])
}

/// Relies on byteorder's `LittleEndian::write_u32`: `n` as four bytes,
/// least significant first.
#[verifier::external_body]
fn le_bytes_u32(n: u32) -> (r: Vec<u8>)
    ensures
        r@ == le_bytes(n as nat, 4),
{
    let mut buf = vec![0u8; 4];
    <byteorder::LittleEndian as byteorder::ByteOrder>::write_u32(&mut buf, n);
    buf
}

/// Relies on byteorder's `LittleEndian::write_u64`: `n` as eight bytes,
/// least significant first.
#[verifier::external_body]
fn le_bytes_u64(n: u64) -> (r: Vec<u8>)
    ensures
        r@ == le_bytes(n as nat, 8),
{
    let mut buf = vec![0u8; 8];
    <byteorder::LittleEndian as byteorder::ByteOrder>::write_u64(&mut buf, n);
    buf
}

pub open spec fn token_bytes(t: ArchiveEntryExists) -> Seq<u8> {
    le_bytes(t.ino as nat, 8) + le_bytes(t.ctime as u64 as nat, 8)
}

/// The bytes of one entry.
pub open spec fn entry_bytes(e: ArchiveEntryPerReplica) -> Seq<u8> {
    match e {
        ArchiveEntryPerReplica::Empty => seq![0u8],
        ArchiveEntryPerReplica::Directory(t) => seq![1u8] + token_bytes(t),
        ArchiveEntryPerReplica::File(t) => seq![2u8] + token_bytes(t),
        ArchiveEntryPerReplica::Symlink(t) => seq![3u8] + token_bytes(t),
    }
}

pub open spec fn entries_bytes(s: Seq<ArchiveEntryPerReplica>) -> Seq<u8>
    decreases s.len(),
{
    if s.len() == 0 {
        Seq::empty()
    } else {
        entries_bytes(s.drop_last()) + entry_bytes(s.last())
    }
}

pub open spec fn record_bytes(r: (u64, Seq<ArchiveEntryPerReplica>)) -> Seq<u8> {
    le_bytes(r.0 as nat, 8) + entries_bytes(r.1)
}

pub open spec fn records_bytes(s: Seq<(u64, Seq<ArchiveEntryPerReplica>)>) -> Seq<u8>
    decreases s.len(),
{
    if s.len() == 0 {
        Seq::empty()
    } else {
        records_bytes(s.drop_last()) + record_bytes(s.last())
    }
}

/// The contents of an archive file that holds the records `s`.
pub open spec fn archive_bytes(s: Seq<(u64, Seq<ArchiveEntryPerReplica>)>) -> Seq<u8> {
    le_bytes(ARCHIVE_VERSION as nat, 4) + le_bytes(s.len(), 8) + records_bytes(s)
}

/// The outcome of reading one item at a position: the item and the position
/// after it, or the bytes ran out, or they cannot stand for an item.
pub enum Parsed<T> {
    Value(T, int),
    Truncated,
    Corrupt,
}

pub open spec fn entry_of(tag: u8, t: ArchiveEntryExists) -> ArchiveEntryPerReplica {
    if tag == 1 {
        ArchiveEntryPerReplica::Directory(t)
    } else if tag == 2 {
        ArchiveEntryPerReplica::File(t)
    } else {
        ArchiveEntryPerReplica::Symlink(t)
    }
}

pub open spec fn parse_entry(b: Seq<u8>, at: int) -> Parsed<ArchiveEntryPerReplica> {
    if at >= b.len() {
        Parsed::Truncated
    } else if b[at] == 0 {
        Parsed::Value(ArchiveEntryPerReplica::Empty, at + 1)
    } else if b[at] > 3 {
        Parsed::Corrupt
    } else if at + 17 > b.len() {
        Parsed::Truncated
    } else {
        let t = ArchiveEntryExists {
            ino: le_value(b.subrange(at + 1, at + 9)) as u64,
            ctime: le_value(b.subrange(at + 9, at + 17)) as u64 as i64,
        };
        Parsed::Value(entry_of(b[at], t), at + 17)
    }
}

pub open spec fn parse_entries(b: Seq<u8>, at: int, n: nat) -> Parsed<Seq<ArchiveEntryPerReplica>>
    decreases n,
{
    if n == 0 {
        Parsed::Value(Seq::empty(), at)
    } else {
        match parse_entries(b, at, (n - 1) as nat) {
            Parsed::Value(s, p) => match parse_entry(b, p) {
                Parsed::Value(e, q) => Parsed::Value(s.push(e), q),
                Parsed::Truncated => Parsed::Truncated,
                Parsed::Corrupt => Parsed::Corrupt,
            },
            Parsed::Truncated => Parsed::Truncated,
            Parsed::Corrupt => Parsed::Corrupt,
        }
    }
}

pub open spec fn parse_record(b: Seq<u8>, at: int, n: nat) -> Parsed<(u64, Seq<ArchiveEntryPerReplica>)> {
    if at + 8 > b.len() {
        Parsed::Truncated
    } else {
        match parse_entries(b, at + 8, n) {
            Parsed::Value(s, p) => Parsed::Value((le_value(b.subrange(at, at + 8)) as u64, s), p),
            Parsed::Truncated => Parsed::Truncated,
            Parsed::Corrupt => Parsed::Corrupt,
        }
    }
}

pub open spec fn parse_records(b: Seq<u8>, at: int, count: nat, n: nat) -> Parsed<
    Seq<(u64, Seq<ArchiveEntryPerReplica>)>,
>
    decreases count,
{
    if count == 0 {
        Parsed::Value(Seq::empty(), at)
    } else {
        match parse_records(b, at, (count - 1) as nat, n) {
            Parsed::Value(s, p) => match parse_record(b, p, n) {
                Parsed::Value(r, q) => Parsed::Value(s.push(r), q),
                Parsed::Truncated => Parsed::Truncated,
                Parsed::Corrupt => Parsed::Corrupt,
            },
            Parsed::Truncated => Parsed::Truncated,
            Parsed::Corrupt => Parsed::Corrupt,
        }
    }
}

/// What a file's contents stand for, for `n` replicas: `Some` of its records,
/// or `None` for a corrupt body. A file too short for its version tag, one
/// with another version, and one whose body ends early, all stand for no
/// records: there is no prior state to go by.
pub open spec fn parse_archive(b: Seq<u8>, n: nat) -> Option<Seq<(u64, Seq<ArchiveEntryPerReplica>)>> {
    if b.len() < 4 || le_value(b.subrange(0, 4)) != ARCHIVE_VERSION as nat || b.len() < 12 {
        Some(Seq::empty())
    } else {
        match parse_records(b, 12, le_value(b.subrange(4, 12)), n) {
            Parsed::Value(s, _) => if keys_unique(s) {
                Some(s)
            } else {
                None
            },
            Parsed::Truncated => Some(Seq::empty()),
            Parsed::Corrupt => None,
        }
    }
}

/// Why the records of an archive file could not be read.
#[derive(Debug)]
pub enum ReadError {
    InvalidArchiveVersion(u32),
    IoError(String),
    /// The body carries the current version but stands for no records.
    DeserializeError,
}

/// Why the records of an archive file could not be written.
#[derive(Debug)]
pub enum WriteError {
    IoError(String),
}

enum Step<T> {
    Value(T, usize),
    Truncated,
    Corrupt,
}

spec fn step_is<T, V>(r: Step<T>, p: Parsed<V>, view: spec_fn(T) -> V) -> bool {
    match (r, p) {
        (Step::Value(x, q), Parsed::Value(y, q2)) => view(x) == y && q as int == q2,
        (Step::Truncated, Parsed::Truncated) => true,
        (Step::Corrupt, Parsed::Corrupt) => true,
        _ => false,
    }
}

fn read_entry(b: &[u8], at: usize) -> (r: Step<ArchiveEntryPerReplica>)
    ensures
        step_is(r, parse_entry(b@, at as int), |e: ArchiveEntryPerReplica| e),
{
    if at >= b.len() {
        return Step::Truncated;
    }
    let tag = b[at];
    if tag == 0 {
        return Step::Value(ArchiveEntryPerReplica::Empty, at + 1);
    }
    if tag > 3 {
        return Step::Corrupt;
    }
    if b.len() - at < 17 {
        return Step::Truncated;
    }
    let ino = read_le_u64(b, at + 1);
    let ctime = read_le_u64(b, at + 9);
    let t = ArchiveEntryExists { ino, ctime: ctime as i64 };
    let e = if tag == 1 {
        ArchiveEntryPerReplica::Directory(t)
    } else if tag == 2 {
        ArchiveEntryPerReplica::File(t)
    } else {
        ArchiveEntryPerReplica::Symlink(t)
    };
    Step::Value(e, at + 17)
}

proof fn lemma_entries_failure_stays(b: Seq<u8>, at: int, j: nat, n: nat)
    requires
        j <= n,
        !(parse_entries(b, at, j) is Value),
    ensures
        parse_entries(b, at, n) == parse_entries(b, at, j),
    decreases n,
{
    if j < n {
        lemma_entries_failure_stays(b, at, j, (n - 1) as nat);
    }
}

proof fn lemma_records_failure_stays(b: Seq<u8>, at: int, j: nat, count: nat, n: nat)
    requires
        j <= count,
        !(parse_records(b, at, j, n) is Value),
    ensures
        parse_records(b, at, count, n) == parse_records(b, at, j, n),
    decreases count,
{
    if j < count {
        lemma_records_failure_stays(b, at, j, (count - 1) as nat, n);
    }
}

fn read_record(b: &[u8], at: usize, n: usize) -> (r: Step<Record>)
    ensures
        step_is(r, parse_record(b@, at as int, n as nat), |x: Record| (x.0, x.1@)),
{
    if at > b.len() || b.len() - at < 8 {
        return Step::Truncated;
    }
    let hash = read_le_u64(b, at);
    let mut entries: Vec<ArchiveEntryPerReplica> = Vec::new();
    let mut pos = at + 8;
    let mut j: usize = 0;
    while j < n
        invariant
            j <= n,
            at + 8 <= b@.len(),
            parse_entries(b@, at + 8, j as nat) == Parsed::Value(entries@, pos as int),
        decreases n - j,
    {
        match read_entry(b, pos) {
            Step::Value(e, q) => {
                entries.push(e);
                pos = q;
            },
            Step::Truncated => {
                proof {
                    lemma_entries_failure_stays(b@, at + 8, (j + 1) as nat, n as nat);
                }
                return Step::Truncated;
            },
            Step::Corrupt => {
                proof {
                    lemma_entries_failure_stays(b@, at + 8, (j + 1) as nat, n as nat);
                }
                return Step::Corrupt;
            },
        }
        j = j + 1;
    }
    Step::Value((hash, entries), pos)
}

/// Whether the hashes of `v` are distinct.
fn hashes_distinct(v: &Vec<Record>) -> (r: bool)
    ensures
        r == keys_unique(records_view(v@)),
{
    let mut i: usize = 0;
    while i < v.len()
        invariant
            i <= v.len(),
            forall|a: int, b: int| 0 <= a < b < v.len() && a < i ==> v@[a].0 != v@[b].0,
        decreases v.len() - i,
    {
        let mut j: usize = i + 1;
        while j < v.len()
            invariant
                i < j <= v.len(),
                forall|a: int, b: int| 0 <= a < b < v.len() && a < i ==> v@[a].0 != v@[b].0,
                forall|b: int| i < b < j ==> v@[i as int].0 != v@[b].0,
            decreases v.len() - j,
        {
            if v[i].0 == v[j].0 {
                assert(records_view(v@)[i as int].0 == records_view(v@)[j as int].0);
                return false;
            }
            j = j + 1;
        }
        i = i + 1;
    }
    assert forall|a: int, b: int| 0 <= a < b < records_view(v@).len() implies records_view(v@)[a].0
        != records_view(v@)[b].0 by {
        assert(v@[a].0 != v@[b].0);
    }
    true
}

impl ArchiveEntries {
    /// The records that the contents `bytes` of an archive file stand for,
    /// for `replicas` replicas. Contents too short for the version tag, with
    /// another version, or whose body ends early give no records; a body of
    /// the current version that stands for no records, or repeats a hash, is
    /// an error.
    pub fn decode(bytes: &[u8], replicas: usize) -> (r: Result<ArchiveEntries, ReadError>)
        ensures
            match parse_archive(bytes@, replicas as nat) {
                Some(s) => r is Ok && r->Ok_0.wf() && r->Ok_0.records() == s && !r->Ok_0.dirty(),
                None => r is Err && r->Err_0 is DeserializeError,
            },
    {
        if bytes.len() < 4 {
            return Ok(ArchiveEntries::empty());
        }
        let version = read_le_u32(bytes, 0);
        if version != ARCHIVE_VERSION || bytes.len() < 12 {
            return Ok(ArchiveEntries::empty());
        }
        let count = read_le_u64(bytes, 4);
        let mut records: Vec<Record> = Vec::new();
        let mut pos: usize = 12;
        let mut k: u64 = 0;
        assert(records_view(records@) =~= Seq::<(u64, Seq<ArchiveEntryPerReplica>)>::empty());
        while k < count
            invariant
                k <= count,
                bytes@.len() >= 12,
                le_value(bytes@.subrange(0, 4)) == ARCHIVE_VERSION as nat,
                count as nat == le_value(bytes@.subrange(4, 12)),
                parse_records(bytes@, 12, k as nat, replicas as nat) == Parsed::Value(
                    records_view(records@),
                    pos as int,
                ),
            decreases count - k,
        {
            match read_record(bytes, pos, replicas) {
                Step::Value(rec, q) => {
                    let ghost before = records@;
                    records.push(rec);
                    assert(records_view(records@) =~= records_view(before).push((rec.0, rec.1@)));
                    pos = q;
                },
                Step::Truncated => {
                    proof {
                        lemma_records_failure_stays(bytes@, 12, (k + 1) as nat, count as nat, replicas as nat);
                    }
                    return Ok(ArchiveEntries::empty());
                },
                Step::Corrupt => {
                    proof {
                        lemma_records_failure_stays(bytes@, 12, (k + 1) as nat, count as nat, replicas as nat);
                    }
                    return Err(ReadError::DeserializeError);
                },
            }
            k = k + 1;
        }
        if hashes_distinct(&records) {
            Ok(ArchiveEntries::from_records(records))
        } else {
            Err(ReadError::DeserializeError)
        }
    }
}


fn push_bytes(out: &mut Vec<u8>, b: Vec<u8>)
    ensures
        final(out)@ == old(out)@ + b@,
{
    let mut b = b;
    out.append(&mut b);
}

fn write_entry(out: &mut Vec<u8>, e: &ArchiveEntryPerReplica)
    ensures
        final(out)@ == old(out)@ + entry_bytes(*e),
{
    let ghost start = out@;
    let t = match e {
        ArchiveEntryPerReplica::Empty => {
            out.push(0);
            assert(out@ =~= start + entry_bytes(*e));
            return;
        },
        ArchiveEntryPerReplica::Directory(t) => {
            out.push(1);
            t
        },
        ArchiveEntryPerReplica::File(t) => {
            out.push(2);
            t
        },
        ArchiveEntryPerReplica::Symlink(t) => {
            out.push(3);
            t
        },
    };
    push_bytes(out, le_bytes_u64(t.ino));
    push_bytes(out, le_bytes_u64(t.ctime as u64));
    assert(out@ =~= start + entry_bytes(*e));
}

fn write_record(out: &mut Vec<u8>, r: &Record)
    ensures
        final(out)@ == old(out)@ + record_bytes((r.0, r.1@)),
{
    let ghost start = out@;
    push_bytes(out, le_bytes_u64(r.0));
    let ghost head = out@;
    let mut j: usize = 0;
    while j < r.1.len()
        invariant
            j <= r.1.len(),
            out@ == head + entries_bytes(r.1@.take(j as int)),
        decreases r.1.len() - j,
    {
        write_entry(out, &r.1[j]);
        proof {
            let t = r.1@.take(j + 1);
            assert(t.drop_last() =~= r.1@.take(j as int));
            assert(out@ =~= head + entries_bytes(t));
        }
        j = j + 1;
    }
    assert(r.1@.take(j as int) =~= r.1@);
    assert(out@ =~= start + record_bytes((r.0, r.1@)));
}

impl ArchiveEntries {
    /// The contents of an archive file that holds these records.
    pub fn encode(&self) -> (r: Vec<u8>)
        ensures
            r@ == archive_bytes(self.records()),
    {
        let records = self.iter();
        let mut out = le_bytes_u32(ARCHIVE_VERSION);
        push_bytes(&mut out, le_bytes_u64(records.len() as u64));
        let ghost head = out@;
        let mut i: usize = 0;
        while i < records.len()
            invariant
                i <= records@.len(),
                records_view(records@) == self.records(),
                out@ == head + records_bytes(self.records().take(i as int)),
            decreases records.len() - i,
        {
            write_record(&mut out, &records[i]);
            proof {
                let t = self.records().take(i + 1);
                assert(t.drop_last() =~= self.records().take(i as int));
                assert(t.last() == (records@[i as int].0, records@[i as int].1@));
                assert(out@ =~= head + records_bytes(t));
            }
            i = i + 1;
        }
        assert(self.records().take(i as int) =~= self.records());
        assert(out@ =~= archive_bytes(self.records()));
        out
    }

    /// Prepares a write of this record set: prunes the records in which
    /// every replica is `Empty`, then gives the file contents, or `None`
    /// when no record is left and the file is to be removed instead.
    pub fn to_file_contents(&mut self) -> (r: Option<Vec<u8>>)
        requires
            old(self).wf(),
        ensures
            final(self).wf(),
            final(self).records() == old(self).records().filter(
                |r: (u64, Seq<ArchiveEntryPerReplica>)| !all_empty(r.1),
            ),
            final(self).dirty() == old(self).dirty(),
            r is None <==> final(self).records().len() == 0,
            r is Some ==> r->0@ == archive_bytes(final(self).records()),
    {
        self.prune_deleted();
        if self.len() == 0 {
            None
        } else {
            Some(self.encode())
        }
    }
}

/// `pow256(w)` is `256` to the power `w`.
proof fn lemma_pow256_widths()
    ensures
        pow256(4) == 0x1_0000_0000,
        pow256(8) == 0x1_0000_0000_0000_0000,
{
    assert(pow256(0) == 1);
    assert(pow256(1) == 0x100);
    assert(pow256(2) == 0x1_0000);
    assert(pow256(3) == 0x100_0000);
    assert(pow256(4) == 0x1_0000_0000);
    assert(pow256(5) == 0x100_0000_0000);
    assert(pow256(6) == 0x1_0000_0000_0000);
    assert(pow256(7) == 0x100_0000_0000_0000);
    assert(pow256(8) == 0x1_0000_0000_0000_0000);
}

/// Reading back the bytes of a number that fits gives the number.
pub proof fn lemma_le_round_trip(n: nat, width: nat)
    requires
        n < pow256(width),
    ensures
        le_bytes(n, width).len() == width,
        le_value(le_bytes(n, width)) == n,
    decreases width,
{
    if width > 0 {
        let w1 = (width - 1) as nat;
        let p = pow256(w1);
        assert(n / 256 < p) by (nonlinear_arith)
            requires
                n < 256 * p,
        ;
        lemma_le_round_trip(n / 256, w1);
        let b = le_bytes(n, width);
        assert(b.drop_first() =~= le_bytes(n / 256, w1));
        assert(n == n % 256 + 256 * (n / 256)) by (nonlinear_arith);
    }
}

proof fn lemma_token_round_trip(t: ArchiveEntryExists)
    ensures
        le_bytes(t.ino as nat, 8).len() == 8,
        le_bytes(t.ctime as u64 as nat, 8).len() == 8,
        le_value(le_bytes(t.ino as nat, 8)) as u64 == t.ino,
        le_value(le_bytes(t.ctime as u64 as nat, 8)) as u64 as i64 == t.ctime,
{
    lemma_pow256_widths();
    lemma_le_round_trip(t.ino as nat, 8);
    lemma_le_round_trip(t.ctime as u64 as nat, 8);
    let c = t.ctime;
    assert((c as u64) as i64 == c) by (bit_vector);
}

proof fn lemma_parse_entry_at(b: Seq<u8>, at: int, e: ArchiveEntryPerReplica)
    requires
        0 <= at,
        at + entry_bytes(e).len() <= b.len(),
        b.subrange(at, at + entry_bytes(e).len()) == entry_bytes(e),
    ensures
        parse_entry(b, at) == Parsed::Value(e, at + entry_bytes(e).len()),
{
    let eb = entry_bytes(e);
    assert(b[at] == eb[0]);
    match e {
        ArchiveEntryPerReplica::Empty => {},
        ArchiveEntryPerReplica::Directory(t) | ArchiveEntryPerReplica::File(t) | ArchiveEntryPerReplica::Symlink(t) => {
            lemma_token_round_trip(t);
            assert(eb.len() == 17);
            assert(b.subrange(at + 1, at + 9) =~= eb.subrange(1, 9));
            assert(b.subrange(at + 9, at + 17) =~= eb.subrange(9, 17));
            assert(eb.subrange(1, 9) =~= le_bytes(t.ino as nat, 8));
            assert(eb.subrange(9, 17) =~= le_bytes(t.ctime as u64 as nat, 8));
        },
    }
}

proof fn lemma_parse_entries_at(b: Seq<u8>, at: int, es: Seq<ArchiveEntryPerReplica>)
    requires
        0 <= at,
        at + entries_bytes(es).len() <= b.len(),
        b.subrange(at, at + entries_bytes(es).len()) == entries_bytes(es),
    ensures
        parse_entries(b, at, es.len()) == Parsed::Value(es, at + entries_bytes(es).len()),
    decreases es.len(),
{
    if es.len() == 0 {
        assert(es =~= Seq::<ArchiveEntryPerReplica>::empty());
    } else {
        let front = es.drop_last();
        let l1 = entries_bytes(front).len();
        let l2 = entry_bytes(es.last()).len();
        let whole = entries_bytes(es);
        assert(whole == entries_bytes(front) + entry_bytes(es.last()));
        assert(b.subrange(at, at + l1) =~= whole.subrange(0, l1 as int));
        assert(whole.subrange(0, l1 as int) =~= entries_bytes(front));
        lemma_parse_entries_at(b, at, front);
        assert(b.subrange(at + l1, at + l1 + l2) =~= whole.subrange(l1 as int, (l1 + l2) as int));
        assert(whole.subrange(l1 as int, (l1 + l2) as int) =~= entry_bytes(es.last()));
        lemma_parse_entry_at(b, at + l1, es.last());
        assert(front.push(es.last()) =~= es);
        assert(front.len() == (es.len() - 1) as nat);
    }
}

proof fn lemma_parse_record_at(b: Seq<u8>, at: int, r: (u64, Seq<ArchiveEntryPerReplica>))
    requires
        0 <= at,
        at + record_bytes(r).len() <= b.len(),
        b.subrange(at, at + record_bytes(r).len()) == record_bytes(r),
    ensures
        parse_record(b, at, r.1.len()) == Parsed::Value(r, at + record_bytes(r).len()),
{
    lemma_pow256_widths();
    lemma_le_round_trip(r.0 as nat, 8);
    let whole = record_bytes(r);
    let l2 = entries_bytes(r.1).len();
    assert(b.subrange(at, at + 8) =~= whole.subrange(0, 8));
    assert(whole.subrange(0, 8) =~= le_bytes(r.0 as nat, 8));
    assert(b.subrange(at + 8, at + 8 + l2) =~= whole.subrange(8, 8 + l2 as int));
    assert(whole.subrange(8, 8 + l2 as int) =~= entries_bytes(r.1));
    lemma_parse_entries_at(b, at + 8, r.1);
}

proof fn lemma_parse_records_at(
    b: Seq<u8>,
    at: int,
    s: Seq<(u64, Seq<ArchiveEntryPerReplica>)>,
    n: nat,
)
    requires
        0 <= at,
        at + records_bytes(s).len() <= b.len(),
        b.subrange(at, at + records_bytes(s).len()) == records_bytes(s),
        forall|i: int| 0 <= i < s.len() ==> (#[trigger] s[i]).1.len() == n,
    ensures
        parse_records(b, at, s.len(), n) == Parsed::Value(s, at + records_bytes(s).len()),
    decreases s.len(),
{
    if s.len() == 0 {
        assert(s =~= Seq::<(u64, Seq<ArchiveEntryPerReplica>)>::empty());
    } else {
        let front = s.drop_last();
        let l1 = records_bytes(front).len();
        let l2 = record_bytes(s.last()).len();
        let whole = records_bytes(s);
        assert(b.subrange(at, at + l1) =~= whole.subrange(0, l1 as int));
        assert(whole.subrange(0, l1 as int) =~= records_bytes(front));
        assert forall|i: int| 0 <= i < front.len() implies (#[trigger] front[i]).1.len() == n by {
            assert(front[i] == s[i]);
        }
        lemma_parse_records_at(b, at, front, n);
        assert(b.subrange(at + l1, at + l1 + l2) =~= whole.subrange(l1 as int, (l1 + l2) as int));
        assert(whole.subrange(l1 as int, (l1 + l2) as int) =~= record_bytes(s.last()));
        assert(s.last() == s[s.len() - 1]);
        lemma_parse_record_at(b, at + l1, s.last());
        assert(front.push(s.last()) =~= s);
        assert(front.len() == (s.len() - 1) as nat);
    }
}

/// Reading back what was written gives the records that were written: for
/// record sets with distinct hashes and `n` replica slots in each record,
/// the contents that `encode` produces stand for exactly those records.
pub proof fn lemma_archive_round_trip(s: Seq<(u64, Seq<ArchiveEntryPerReplica>)>, n: nat)
    requires
        keys_unique(s),
        forall|i: int| 0 <= i < s.len() ==> (#[trigger] s[i]).1.len() == n,
        s.len() < 0x1_0000_0000_0000_0000,
    ensures
        parse_archive(archive_bytes(s), n) == Some(s),
{
    lemma_pow256_widths();
    lemma_le_round_trip(ARCHIVE_VERSION as nat, 4);
    lemma_le_round_trip(s.len(), 8);
    let b = archive_bytes(s);
    assert(b.subrange(0, 4) =~= le_bytes(ARCHIVE_VERSION as nat, 4));
    assert(b.subrange(4, 12) =~= le_bytes(s.len(), 8));
    assert(b.subrange(12, 12 + records_bytes(s).len() as int) =~= records_bytes(s));
    lemma_parse_records_at(b, 12, s, n);
}

/// Contents with a version tag other than the current one stand for no
/// records, and every write puts the current version tag first.
pub proof fn lemma_other_version_reads_empty(b: Seq<u8>, n: nat, s: Seq<(u64, Seq<ArchiveEntryPerReplica>)>)
    requires
        b.len() >= 4,
        le_value(b.subrange(0, 4)) != ARCHIVE_VERSION as nat,
    ensures
        parse_archive(b, n) == Some(Seq::<(u64, Seq<ArchiveEntryPerReplica>)>::empty()),
        le_value(archive_bytes(s).subrange(0, 4)) == ARCHIVE_VERSION as nat,
{
    lemma_pow256_widths();
    lemma_le_round_trip(ARCHIVE_VERSION as nat, 4);
    assert(archive_bytes(s).subrange(0, 4) =~= le_bytes(ARCHIVE_VERSION as nat, 4));
}

} // verus!
