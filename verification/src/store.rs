//! The metadata ledger: which paths of the old archive have been indexed, which
//! source paths have been transferred, and which content digests the target
//! therefore already holds.

use crate::digest::Sha256Hash;
use std::collections::HashMap;
use vstd::prelude::*;
use vstd::std_specs::hash::group_hash_axioms;
use vstd::string::StringSliceAdditionalSpecFns;
use vstd::utf8::decode_utf8;
use vstd::utf8::encode_utf8;
use vstd::utf8::encode_utf8_decode_utf8;
use vstd::utf8::valid_utf8;

verus! {

/// A point in time, as its distance from the Unix epoch: whole seconds and
/// the nanoseconds beyond them, and whether the point lies before the epoch.
#[derive(Clone, Copy, Debug, PartialEq, Eq, Structural)]
pub struct FileTime {
    pub before_epoch: bool,
    pub secs: u64,
    pub nanos: u32,
}

/// Why the ledger turned a request down.
#[derive(Clone, Copy, Debug, PartialEq, Eq, Structural)]
pub enum StoreError {
    /// A modification time lies before the Unix epoch.
    TimeBeforeEpoch,
    /// A path is not valid UTF-8 and so has no text form.
    PathNotText,
}

/// The signed 64-bit number with the same bits as `n`: how an unsigned
/// number is kept where only signed ones can be.
pub open spec fn wrapped_i64(n: u64) -> i64 {
    if n <= 0x7fff_ffff_ffff_ffff {
        n as i64
    } else {
        (n - 0x1_0000_0000_0000_0000) as i64
    }
}

/// The value that the ledger keeps for a modification time: its whole
/// seconds since the epoch. A time before the epoch has none.
pub open spec fn stored_time(t: FileTime) -> Result<i64, StoreError> {
    if t.before_epoch {
        Err(StoreError::TimeBeforeEpoch)
    } else {
        Ok(wrapped_i64(t.secs))
    }
}

/// The point in time that lies `t` whole seconds after the epoch, or `-t`
/// before it where `t` is negative.
pub open spec fn time_of_seconds(t: i64) -> FileTime {
    FileTime {
        before_epoch: t < 0,
        secs: if t >= 0 {
            t as u64
        } else {
            (-t) as u64
        },
        nanos: 0,
    }
}

fn same_bits(n: u64) -> (signed: i64)
    ensures
        signed == wrapped_i64(n),
{
    if n <= 0x7fff_ffff_ffff_ffff {
        n as i64
    } else {
        let low: u64 = n - 0x8000_0000_0000_0000;
        low as i64 + i64::MIN
    }
}

/// Whole seconds since the epoch, dropping the sub-second part. Times before
/// the epoch are refused.
pub fn system_time_as_i64(t: FileTime) -> (secs: Result<i64, StoreError>)
    ensures
        secs == stored_time(t),
{
    if t.before_epoch {
        Err(StoreError::TimeBeforeEpoch)
    } else {
        Ok(same_bits(t.secs))
    }
}

/// The point in time that lies `t` whole seconds from the epoch: after it,
/// or before it where `t` is negative.
pub fn i64_as_system_time(t: i64) -> (time: FileTime)
    ensures
        time == time_of_seconds(t),
{
    if t >= 0 {
        FileTime { before_epoch: false, secs: t as u64, nanos: 0 }
    } else {
        let short: i64 = t + 1;
        FileTime { before_epoch: true, secs: (-short) as u64 + 1, nanos: 0 }
    }
}

/// A byte count as a signed column value. No two counts give the same value.
pub fn size_as_i64(size: u64) -> (column: i64)
    ensures
        column == wrapped_i64(size),
{
    same_bits(size)
}

/// The byte count that a signed column value stands for.
pub fn i64_as_size(column: i64) -> (size: u64)
    ensures
        wrapped_i64(size) == column,
{
    if column >= 0 {
        column as u64
    } else {
        let low: i64 = column - i64::MIN;
        low as u64 + 0x8000_0000_0000_0000
    }
}

/// Seconds survive the way into a point in time and back, unless they are
/// negative: a point before the epoch has no stored value.
pub proof fn lemma_seconds_round_trip(t: i64)
    ensures
        t >= 0 ==> stored_time(time_of_seconds(t)) == Ok::<i64, StoreError>(t),
        t < 0 ==> stored_time(time_of_seconds(t)) == Err::<i64, StoreError>(
            StoreError::TimeBeforeEpoch,
        ),
{
}

/// `std::str::from_utf8`: succeeds exactly on valid UTF-8, and then yields a
/// string slice over the very same bytes.
#[verifier::external_body]
fn str_from_utf8(bytes: &[u8]) -> (text: Option<&str>)
    ensures
        text is Some <==> valid_utf8(bytes@),
        text matches Some(s) ==> s.spec_bytes() == bytes@,
{
    std::str::from_utf8(bytes).ok()
}

/// The text of a path given as raw bytes, or `PathNotText` when the bytes are
/// not valid UTF-8.
pub fn path_to_text(path: &[u8]) -> (text: Result<String, StoreError>)
    ensures
        match text {
            Ok(s) => valid_utf8(path@) && s@ == decode_utf8(path@),
            Err(e) => !valid_utf8(path@) && e == StoreError::PathNotText,
        },
{
    match str_from_utf8(path) {
        Some(s) => {
            proof {
                encode_utf8_decode_utf8(s@);
            }
            Ok(s.to_owned())
        },
        None => Err(StoreError::PathNotText),
    }
}

/// Whether two strings hold the same text.
pub fn same_text(a: &str, b: &str) -> (same: bool)
    ensures
        same == (a@ == b@),
{
    let x = a.as_bytes();
    let y = b.as_bytes();
    proof {
        encode_utf8_decode_utf8(a@);
        encode_utf8_decode_utf8(b@);
    }
    if x.len() != y.len() {
        return false;
    }
    let mut i: usize = 0;
    while i < x.len()
        invariant
            i <= x@.len(),
            x@.len() == y@.len(),
            x@ == a.spec_bytes(),
            y@ == b.spec_bytes(),
            forall|j: int| 0 <= j < i ==> x@[j] == y@[j],
        decreases x@.len() - i,
    {
        if x[i] != y[i] {
            return false;
        }
        i += 1;
    }
    assert(x@ =~= y@);
    true
}

/// What the ledger keeps for one path: its modification time in whole
/// seconds since the epoch, its size in bytes and the digest of its content.
#[derive(Clone, Copy, Debug)]
pub struct Row {
    pub mtime: i64,
    pub size: u64,
    pub digest: Sha256Hash,
}

/// One entry of the ledger: a path and what is kept for it.
struct FileRecord {
    path: String,
    row: Row,
}

/// Answer to "has this file of the old archive been indexed?".
#[derive(Clone, Copy, Debug)]
pub enum ExistsInOldTargetResult {
    /// Nothing is recorded for the path.
    Unknown,
    /// The path is recorded with exactly this modification time and size.
    Current,
    /// The path is recorded with other metadata: what was recorded before.
    Stale { last_modified: FileTime, size: u64, digest: Sha256Hash },
}

impl PartialEq for ExistsInOldTargetResult {
    fn eq(&self, other: &Self) -> (same: bool) {
        match (self, other) {
            (ExistsInOldTargetResult::Unknown, ExistsInOldTargetResult::Unknown) => true,
            (ExistsInOldTargetResult::Current, ExistsInOldTargetResult::Current) => true,
            (
                ExistsInOldTargetResult::Stale { last_modified: t1, size: s1, digest: d1 },
                ExistsInOldTargetResult::Stale { last_modified: t2, size: s2, digest: d2 },
            ) => *t1 == *t2 && *s1 == *s2 && *d1 == *d2,
            _ => false,
        }
    }
}

impl Eq for ExistsInOldTargetResult {

}

impl vstd::std_specs::cmp::PartialEqSpecImpl for ExistsInOldTargetResult {
    open spec fn obeys_eq_spec() -> bool {
        true
    }

    open spec fn eq_spec(&self, other: &Self) -> bool {
        *self == *other
    }
}

/// Answer to "has this source file been transferred?".
#[derive(Clone, Copy, Debug, PartialEq, Eq, Structural)]
pub enum WasTransferredFromSourceResult {
    /// Nothing is recorded for the path.
    New,
    /// The path was transferred with exactly this modification time and size.
    Transferred,
    /// The path was transferred with other metadata: what was recorded then.
    NewMetadata { last_modified: FileTime, size: u64 },
}

/// Whether some path of the table is recorded with this digest.
pub open spec fn holds_digest(table: Map<Seq<char>, Row>, digest: Sha256Hash) -> bool {
    exists|p: Seq<char>| #[trigger] table.contains_key(p) && table[p].digest == digest
}

/// The ledger as a mathematical value: two tables keyed by path. The set of
/// digests that the target holds is read off both of them.
#[verifier::ext_equal]
pub struct StoreView {
    /// Files of the old archive that have been indexed.
    pub old_target_files: Map<Seq<char>, Row>,
    /// Source files that have been transferred.
    pub source_files: Map<Seq<char>, Row>,
}

impl StoreView {
    /// The ledger with nothing recorded.
    pub open spec fn empty() -> StoreView {
        StoreView { old_target_files: Map::empty(), source_files: Map::empty() }
    }

    /// What a lookup in the index of the old archive answers: whether the
    /// path is recorded, and if so whether with this modification time, in
    /// whole seconds, and this size.
    pub open spec fn exists_in_old_target(
        self,
        path: Seq<char>,
        last_modified: FileTime,
        size: u64,
    ) -> Result<ExistsInOldTargetResult, StoreError> {
        match stored_time(last_modified) {
            Err(e) => Err(e),
            Ok(mtime) => Ok(
                if !self.old_target_files.contains_key(path) {
                    ExistsInOldTargetResult::Unknown
                } else {
                    let row = self.old_target_files[path];
                    if row.mtime == mtime && row.size == size {
                        ExistsInOldTargetResult::Current
                    } else {
                        ExistsInOldTargetResult::Stale {
                            last_modified: time_of_seconds(row.mtime),
                            size: row.size,
                            digest: row.digest,
                        }
                    }
                },
            ),
        }
    }

    /// The ledger after a file of the old archive has been recorded: its
    /// path then maps to the new row, whatever it mapped to before.
    pub open spec fn mark_exists_in_old_target(
        self,
        path: Seq<char>,
        last_modified: FileTime,
        size: u64,
        digest: Sha256Hash,
    ) -> Result<StoreView, StoreError> {
        match stored_time(last_modified) {
            Err(e) => Err(e),
            Ok(mtime) => Ok(
                StoreView {
                    old_target_files: self.old_target_files.insert(
                        path,
                        Row { mtime, size, digest },
                    ),
                    source_files: self.source_files,
                },
            ),
        }
    }

    /// Whether some path of either table is recorded with this digest.
    pub open spec fn exists_in_target(self, digest: Sha256Hash) -> bool {
        holds_digest(self.old_target_files, digest) || holds_digest(self.source_files, digest)
    }

    /// What a lookup in the transfer table answers: whether the path is
    /// recorded, and if so whether with this modification time, in whole
    /// seconds, and this size.
    pub open spec fn was_transferred_from_source(
        self,
        path: Seq<char>,
        last_modified: FileTime,
        size: u64,
    ) -> Result<WasTransferredFromSourceResult, StoreError> {
        match stored_time(last_modified) {
            Err(e) => Err(e),
            Ok(mtime) => Ok(
                if !self.source_files.contains_key(path) {
                    WasTransferredFromSourceResult::New
                } else {
                    let row = self.source_files[path];
                    if row.mtime == mtime && row.size == size {
                        WasTransferredFromSourceResult::Transferred
                    } else {
                        WasTransferredFromSourceResult::NewMetadata {
                            last_modified: time_of_seconds(row.mtime),
                            size: row.size,
                        }
                    }
                },
            ),
        }
    }

    /// The ledger after a transfer has been recorded: the path then maps to
    /// the new row, whatever it mapped to before.
    pub open spec fn mark_transferred_from_source(
        self,
        path: Seq<char>,
        digest: Sha256Hash,
        last_modified: FileTime,
        size: u64,
    ) -> Result<StoreView, StoreError> {
        match stored_time(last_modified) {
            Err(e) => Err(e),
            Ok(mtime) => Ok(
                StoreView {
                    old_target_files: self.old_target_files,
                    source_files: self.source_files.insert(path, Row { mtime, size, digest }),
                },
            ),
        }
    }
}

/// No path occurs twice.
spec fn unique_paths(records: Seq<FileRecord>) -> bool {
    forall|i: int, j: int|
        0 <= i < j < records.len() ==> (#[trigger] records[i]).path@ != (#[trigger] records[j]).path@
}

/// Entry `i` is the entry for `path`.
spec fn is_entry(records: Seq<FileRecord>, i: int, path: Seq<char>) -> bool {
    0 <= i < records.len() && records[i].path@ == path
}

/// The table that a list of entries with distinct paths stands for.
spec fn table(records: Seq<FileRecord>) -> Map<Seq<char>, Row> {
    Map::new(
        |p: Seq<char>| exists|i: int| is_entry(records, i, p),
        |p: Seq<char>| records[choose|i: int| is_entry(records, i, p)].row,
    )
}

proof fn lemma_table_at(records: Seq<FileRecord>, i: int)
    requires
        unique_paths(records),
        0 <= i < records.len(),
    ensures
        table(records).contains_key(records[i].path@),
        table(records)[records[i].path@] == records[i].row,
{
    let p = records[i].path@;
    assert(is_entry(records, i, p));
    let k = choose|k: int| is_entry(records, k, p);
    assert(k == i);
}

proof fn lemma_table_push(records: Seq<FileRecord>, record: FileRecord)
    requires
        unique_paths(records),
        forall|i: int| 0 <= i < records.len() ==> (#[trigger] records[i]).path@ != record.path@,
    ensures
        unique_paths(records.push(record)),
        table(records.push(record)) == table(records).insert(record.path@, record.row),
{
    let after = records.push(record);
    assert(unique_paths(after));
    assert forall|p: Seq<char>| #[trigger]
        table(after).contains_key(p) <==> table(records).insert(
            record.path@,
            record.row,
        ).contains_key(p) by {
        if p == record.path@ {
            assert(is_entry(after, records.len() as int, p));
        } else if table(records).contains_key(p) {
            let i = choose|i: int| is_entry(records, i, p);
            assert(is_entry(after, i, p));
        } else if table(after).contains_key(p) {
            let i = choose|i: int| is_entry(after, i, p);
            assert(is_entry(records, i, p));
        }
    }
    assert forall|p: Seq<char>| #[trigger] table(after).contains_key(p) implies table(after)[p]
        == table(records).insert(record.path@, record.row)[p] by {
        let i = choose|i: int| is_entry(after, i, p);
        lemma_table_at(after, i);
        if i < records.len() {
            lemma_table_at(records, i);
        }
    }
    assert(table(after) =~= table(records).insert(record.path@, record.row));
}

proof fn lemma_table_update(records: Seq<FileRecord>, at: int, record: FileRecord)
    requires
        unique_paths(records),
        0 <= at < records.len(),
        records[at].path@ == record.path@,
    ensures
        unique_paths(records.update(at, record)),
        table(records.update(at, record)) == table(records).insert(record.path@, record.row),
{
    let after = records.update(at, record);
    assert forall|i: int, j: int| 0 <= i < j < after.len() implies (#[trigger] after[i]).path@ != (
    #[trigger] after[j]).path@ by {
        assert(records[i].path@ != records[j].path@);
    }
    assert forall|p: Seq<char>| #[trigger]
        table(after).contains_key(p) <==> table(records).insert(
            record.path@,
            record.row,
        ).contains_key(p) by {
        if p == record.path@ {
            assert(is_entry(after, at, p));
        } else if table(records).contains_key(p) {
            let i = choose|i: int| is_entry(records, i, p);
            assert(is_entry(after, i, p));
        } else if table(after).contains_key(p) {
            let i = choose|i: int| is_entry(after, i, p);
            assert(is_entry(records, i, p));
        }
    }
    assert forall|p: Seq<char>| #[trigger] table(after).contains_key(p) implies table(after)[p]
        == table(records).insert(record.path@, record.row)[p] by {
        let i = choose|i: int| is_entry(after, i, p);
        lemma_table_at(after, i);
        if i != at {
            lemma_table_at(records, i);
        }
    }
    assert(table(after) =~= table(records).insert(record.path@, record.row));
}

/// A number computed from a text, the same for the same text: one step.
spec fn mixed(key: u64, byte: u8) -> u64 {
    ((key * 1099511628211 + byte) % 18446744073709551557) as u64
}

/// A number computed from a byte sequence, the same for the same bytes.
spec fn bytes_key(bytes: Seq<u8>) -> u64
    decreases bytes.len(),
{
    if bytes.len() == 0 {
        7
    } else {
        mixed(bytes_key(bytes.drop_last()), bytes.last())
    }
}

/// The number under which the position of a path is listed.
spec fn path_key(path: Seq<char>) -> u64 {
    bytes_key(encode_utf8(path))
}

fn key_of_path(path: &str) -> (key: u64)
    ensures
        key == path_key(path@),
{
    let bytes = path.as_bytes();
    let mut key: u64 = 7;
    let mut i: usize = 0;
    assert(bytes@.take(0) =~= Seq::<u8>::empty());
    while i < bytes.len()
        invariant
            i <= bytes@.len(),
            key == bytes_key(bytes@.take(i as int)),
        decreases bytes@.len() - i,
    {
        assert(bytes@.take(i + 1).drop_last() =~= bytes@.take(i as int));
        key = ((key as u128 * 1099511628211u128 + bytes[i] as u128) % 18446744073709551557u128) as u64;
        i += 1;
    }
    assert(bytes@.take(i as int) =~= bytes@);
    key
}

/// The number under which the position of a digest is listed: its first
/// eight bytes, read as a little-endian number.
spec fn digest_key(digest: Sha256Hash) -> u64 {
    (digest@[0] + 0x100 * digest@[1] + 0x1_0000 * digest@[2] + 0x100_0000 * digest@[3]
        + 0x1_0000_0000 * digest@[4] + 0x100_0000_0000 * digest@[5] + 0x1_0000_0000_0000
        * digest@[6] + 0x100_0000_0000_0000 * digest@[7]) as u64
}

fn key_of_digest(digest: &Sha256Hash) -> (key: u64)
    ensures
        key == digest_key(*digest),
{
    let b = &digest.0;
    b[0] as u64 + 0x100 * (b[1] as u64) + 0x1_0000 * (b[2] as u64) + 0x100_0000 * (b[3] as u64)
        + 0x1_0000_0000 * (b[4] as u64) + 0x100_0000_0000 * (b[5] as u64) + 0x1_0000_0000_0000 * (
    b[6] as u64) + 0x100_0000_0000_0000 * (b[7] as u64)
}

/// Position `pos` is listed under `key`.
spec fn listed(index: Map<u64, Vec<usize>>, key: u64, pos: int) -> bool {
    index.contains_key(key) && exists|q: int|
        0 <= q < index[key]@.len() && #[trigger] index[key]@[q] == pos
}

/// Lists `pos` under `key`. What was listed stays listed.
fn list(index: &mut HashMap<u64, Vec<usize>>, key: u64, pos: usize)
    ensures
        listed(final(index)@, key, pos as int),
        forall|k: u64, p: int| #[trigger] listed(old(index)@, k, p) ==> listed(final(index)@, k, p),
{
    broadcast use group_hash_axioms;

    let mut bucket = match index.remove(&key) {
        Some(bucket) => bucket,
        None => Vec::new(),
    };
    let ghost before = bucket@;
    bucket.push(pos);
    index.insert(key, bucket);
    proof {
        assert(index@[key]@[before.len() as int] == pos);
        assert forall|k: u64, p: int| #[trigger] listed(old(index)@, k, p) implies listed(
            index@,
            k,
            p,
        ) by {
            let q = choose|q: int|
                0 <= q < old(index)@[k]@.len() && #[trigger] old(index)@[k]@[q] == p;
            if k == key {
                assert(index@[k]@[q] == p);
            } else {
                assert(index@[k]@[q] == p);
            }
        }
    }
}

/// A table of the ledger: its entries, and for quick access the positions of
/// the entries by a number computed from the path and by one computed from
/// the digest. A listing may be out of date; an entry is always listed.
struct Table {
    records: Vec<FileRecord>,
    by_path: HashMap<u64, Vec<usize>>,
    by_digest: HashMap<u64, Vec<usize>>,
}

impl Table {
    /// No path occurs twice, and every entry is listed under the number of
    /// its path and under the number of its digest.
    spec fn well_formed(self) -> bool {
        &&& unique_paths(self.records@)
        &&& forall|i: int|
            0 <= i < self.records@.len() ==> listed(
                self.by_path@,
                path_key((#[trigger] self.records@[i]).path@),
                i,
            )
        &&& forall|i: int|
            0 <= i < self.records@.len() ==> listed(
                self.by_digest@,
                digest_key((#[trigger] self.records@[i]).row.digest),
                i,
            )
    }

    /// A table without entries, in which no position is listed.
    fn new() -> (empty: Table)
        ensures
            empty.well_formed(),
            empty.records@ == Seq::<FileRecord>::empty(),
            empty.by_path@ == Map::<u64, Vec<usize>>::empty(),
            empty.by_digest@ == Map::<u64, Vec<usize>>::empty(),
    {
        Table { records: Vec::new(), by_path: HashMap::new(), by_digest: HashMap::new() }
    }

    /// Position of the entry for `path`, if there is one.
    fn find(&self, path: &str) -> (found: Option<usize>)
        requires
            self.well_formed(),
        ensures
            match found {
                Some(i) => is_entry(self.records@, i as int, path@),
                None => forall|i: int|
                    0 <= i < self.records@.len() ==> (#[trigger] self.records@[i]).path@ != path@,
            },
    {
        broadcast use group_hash_axioms;

        let key: u64 = key_of_path(path);
        match self.by_path.get(&key) {
            None => {
                assert forall|i: int| 0 <= i < self.records@.len() implies (
                #[trigger] self.records@[i]).path@ != path@ by {
                    assert(listed(self.by_path@, path_key(self.records@[i].path@), i));
                }
                None
            },
            Some(bucket) => {
                let mut k: usize = 0;
                while k < bucket.len()
                    invariant
                        k <= bucket@.len(),
                        forall|q: int|
                            0 <= q < k ==> !is_entry(self.records@, (#[trigger] bucket@[q]) as int, path@),
                    decreases bucket@.len() - k,
                {
                    let pos: usize = bucket[k];
                    if pos < self.records.len() && same_text(
                        self.records[pos].path.as_str(),
                        path,
                    ) {
                        return Some(pos);
                    }
                    k += 1;
                }
                assert forall|i: int| 0 <= i < self.records@.len() implies (
                #[trigger] self.records@[i]).path@ != path@ by {
                    assert(listed(self.by_path@, path_key(self.records@[i].path@), i));
                    if self.records@[i].path@ == path@ {
                        let q = choose|q: int| 0 <= q < bucket@.len() && #[trigger] bucket@[q] == i;
                        assert(!is_entry(self.records@, bucket@[q] as int, path@));
                    }
                }
                None
            },
        }
    }

    /// The row recorded for `path`, if any.
    fn lookup(&self, path: &str) -> (row: Option<Row>)
        requires
            self.well_formed(),
        ensures
            match row {
                Some(r) => table(self.records@).contains_key(path@) && table(self.records@)[path@]
                    == r,
                None => !table(self.records@).contains_key(path@),
            },
    {
        match self.find(path) {
            Some(i) => {
                proof {
                    lemma_table_at(self.records@, i as int);
                }
                Some(self.records[i].row)
            },
            None => {
                assert forall|i: int| !is_entry(self.records@, i, path@) by {}
                None
            },
        }
    }

    /// Records `row` for `path`, replacing what was recorded for it before.
    fn upsert(&mut self, path: &str, row: Row)
        requires
            old(self).well_formed(),
        ensures
            final(self).well_formed(),
            table(final(self).records@) == table(old(self).records@).insert(path@, row),
    {
        let record = FileRecord { path: path.to_owned(), row };
        let key: u64 = key_of_digest(&row.digest);
        match self.find(path) {
            Some(i) => {
                proof {
                    lemma_table_update(self.records@, i as int, record);
                }
                self.records[i] = record;
                list(&mut self.by_digest, key, i);
            },
            None => {
                proof {
                    lemma_table_push(self.records@, record);
                }
                let at: usize = self.records.len();
                self.records.push(record);
                list(&mut self.by_path, key_of_path(path), at);
                list(&mut self.by_digest, key, at);
            },
        }
        proof {
            assert forall|i: int| 0 <= i < self.records@.len() implies listed(
                self.by_path@,
                path_key((#[trigger] self.records@[i]).path@),
                i,
            ) by {
                if i < old(self).records@.len() {
                    assert(listed(old(self).by_path@, path_key(old(self).records@[i].path@), i));
                }
            }
            assert forall|i: int| 0 <= i < self.records@.len() implies listed(
                self.by_digest@,
                digest_key((#[trigger] self.records@[i]).row.digest),
                i,
            ) by {
                if i < old(self).records@.len() {
                    assert(listed(
                        old(self).by_digest@,
                        digest_key(old(self).records@[i].row.digest),
                        i,
                    ));
                }
            }
        }
    }

    /// Whether some entry carries `digest`.
    fn carries_digest(&self, digest: &Sha256Hash) -> (held: bool)
        requires
            self.well_formed(),
        ensures
            held == holds_digest(table(self.records@), *digest),
    {
        broadcast use group_hash_axioms;

        let key: u64 = key_of_digest(digest);
        match self.by_digest.get(&key) {
            None => {},
            Some(bucket) => {
                let mut k: usize = 0;
                while k < bucket.len()
                    invariant
                        k <= bucket@.len(),
                        self.well_formed(),
                        forall|q: int|
                            0 <= q < k && (#[trigger] bucket@[q]) < self.records@.len()
                                ==> self.records@[bucket@[q] as int].row.digest != *digest,
                    decreases bucket@.len() - k,
                {
                    let pos: usize = bucket[k];
                    if pos < self.records.len() && self.records[pos].row.digest == *digest {
                        proof {
                            lemma_table_at(self.records@, pos as int);
                        }
                        return true;
                    }
                    k += 1;
                }
            },
        }
        assert forall|p: Seq<char>| #[trigger] table(self.records@).contains_key(p) implies table(
            self.records@,
        )[p].digest != *digest by {
            let i = choose|i: int| is_entry(self.records@, i, p);
            lemma_table_at(self.records@, i);
            assert(listed(self.by_digest@, digest_key(self.records@[i].row.digest), i));
            if self.records@[i].row.digest == *digest {
                let bucket = self.by_digest@[key];
                let q = choose|q: int| 0 <= q < bucket@.len() && #[trigger] bucket@[q] == i;
                assert(bucket@[q] < self.records@.len());
            }
        }
        false
    }
}

/// The metadata ledger.
pub struct PhotoSyncStore {
    old_target_files: Table,
    source_files: Table,
}

impl View for PhotoSyncStore {
    type V = StoreView;

    closed spec fn view(&self) -> StoreView {
        StoreView {
            old_target_files: table(self.old_target_files.records@),
            source_files: table(self.source_files.records@),
        }
    }
}

impl PhotoSyncStore {
    #[verifier::type_invariant]
    spec fn well_formed(self) -> bool {
        self.old_target_files.well_formed() && self.source_files.well_formed()
    }

    /// A ledger with nothing recorded.
    pub fn new() -> (store: Self)
        ensures
            store@ == StoreView::empty(),
    {
        let store = PhotoSyncStore { old_target_files: Table::new(), source_files: Table::new() };
        assert(store@ =~= StoreView::empty());
        store
    }

    /// A ledger with nothing recorded, kept in memory only.
    pub fn new_for_tests() -> (store: Self)
        ensures
            store@ == StoreView::empty(),
    {
        PhotoSyncStore::new()
    }

    /// Looks a file of the old archive up by path and compares what is
    /// recorded for it with its present modification time and size.
    pub fn exists_in_old_target(&self, path: &str, last_modified: FileTime, size: u64) -> (found:
        Result<ExistsInOldTargetResult, StoreError>)
        ensures
            found == self@.exists_in_old_target(path@, last_modified, size),
    {
        proof {
            use_type_invariant(self);
        }
        let mtime = match system_time_as_i64(last_modified) {
            Ok(mtime) => mtime,
            Err(e) => { return Err(e); },
        };
        Ok(
            match self.old_target_files.lookup(path) {
                None => ExistsInOldTargetResult::Unknown,
                Some(row) => {
                    if row.mtime == mtime && row.size == size {
                        ExistsInOldTargetResult::Current
                    } else {
                        ExistsInOldTargetResult::Stale {
                            last_modified: i64_as_system_time(row.mtime),
                            size: row.size,
                            digest: row.digest,
                        }
                    }
                },
            },
        )
    }

    /// Records a file of the old archive, replacing what was recorded for
    /// its path. A time before the epoch is refused and changes nothing.
    pub fn mark_exists_in_old_target(
        &mut self,
        path: &str,
        last_modified: FileTime,
        size: u64,
        digest: &Sha256Hash,
    ) -> (done: Result<(), StoreError>)
        ensures
            match done {
                Ok(_) => Ok::<StoreView, StoreError>(final(self)@) == old(
                    self,
                )@.mark_exists_in_old_target(path@, last_modified, size, *digest),
                Err(e) => final(self)@ == old(self)@ && Err::<StoreView, StoreError>(e) == old(
                    self,
                )@.mark_exists_in_old_target(path@, last_modified, size, *digest),
            },
    {
        proof {
            use_type_invariant(&*self);
        }
        let mtime = match system_time_as_i64(last_modified) {
            Ok(mtime) => mtime,
            Err(e) => { return Err(e); },
        };
        let mut files = Table::new();
        std::mem::swap(&mut files, &mut self.old_target_files);
        files.upsert(path, Row { mtime, size, digest: *digest });
        self.old_target_files = files;
        Ok(())
    }

    /// Whether the target already holds content with this digest, under any
    /// path of either table.
    pub fn exists_in_target(&self, digest: &Sha256Hash) -> (held: bool)
        ensures
            held == self@.exists_in_target(*digest),
    {
        proof {
            use_type_invariant(self);
        }
        self.old_target_files.carries_digest(digest) || self.source_files.carries_digest(digest)
    }

    /// Looks a source file up by path and compares what was recorded at its
    /// transfer with its present modification time and size.
    pub fn was_transferred_from_source(
        &self,
        path: &str,
        last_modified: FileTime,
        size: u64,
    ) -> (found: Result<WasTransferredFromSourceResult, StoreError>)
        ensures
            found == self@.was_transferred_from_source(path@, last_modified, size),
    {
        proof {
            use_type_invariant(self);
        }
        let mtime = match system_time_as_i64(last_modified) {
            Ok(mtime) => mtime,
            Err(e) => { return Err(e); },
        };
        Ok(
            match self.source_files.lookup(path) {
                None => WasTransferredFromSourceResult::New,
                Some(row) => {
                    if row.mtime == mtime && row.size == size {
                        WasTransferredFromSourceResult::Transferred
                    } else {
                        WasTransferredFromSourceResult::NewMetadata {
                            last_modified: i64_as_system_time(row.mtime),
                            size: row.size,
                        }
                    }
                },
            },
        )
    }

    /// What is recorded for a file of the old archive, if anything.
    pub fn old_target_row(&self, path: &str) -> (row: Option<Row>)
        ensures
            row == (if self@.old_target_files.contains_key(path@) {
                Some(self@.old_target_files[path@])
            } else {
                None
            }),
    {
        proof {
            use_type_invariant(self);
        }
        self.old_target_files.lookup(path)
    }

    /// What is recorded for a source file, if anything.
    pub fn source_row(&self, path: &str) -> (row: Option<Row>)
        ensures
            row == (if self@.source_files.contains_key(path@) {
                Some(self@.source_files[path@])
            } else {
                None
            }),
    {
        proof {
            use_type_invariant(self);
        }
        self.source_files.lookup(path)
    }

    /// Records a source file as transferred, replacing what was recorded for
    /// its path. A time before the epoch is refused and changes nothing.
    pub fn mark_transferred_from_source(
        &mut self,
        path: &str,
        digest: &Sha256Hash,
        last_modified: FileTime,
        size: u64,
    ) -> (done: Result<(), StoreError>)
        ensures
            match done {
                Ok(_) => Ok::<StoreView, StoreError>(final(self)@) == old(
                    self,
                )@.mark_transferred_from_source(path@, *digest, last_modified, size),
                Err(e) => final(self)@ == old(self)@ && Err::<StoreView, StoreError>(e) == old(
                    self,
                )@.mark_transferred_from_source(path@, *digest, last_modified, size),
            },
    {
        proof {
            use_type_invariant(&*self);
        }
        let mtime = match system_time_as_i64(last_modified) {
            Ok(mtime) => mtime,
            Err(e) => { return Err(e); },
        };
        let mut files = Table::new();
        std::mem::swap(&mut files, &mut self.source_files);
        files.upsert(path, Row { mtime, size, digest: *digest });
        self.source_files = files;
        Ok(())
    }
}

} // verus!
