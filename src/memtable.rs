//! The memtable: the sorted in-memory index of recent writes, which logs each
//! write to its own write-ahead log.
use vstd::prelude::*;
use crate::ds::{
    Record, copy_opt, find, latest, lemma_find_insert, lemma_find_update, lemma_latest_push,
    opt_view, sorted_by_key,
};
use crate::keys::{KeyOrder, compare_keys, key_lt, lemma_key_lt_transitive};
use crate::wal::{Wal, FileImage, file_views, read_entries, recovered_log, replay_log, sort_files};
use crate::ds::{TableEntry, entry_records};
use crate::codec::{frames, parse_all};

verus! {

/// Bytes accounted for the metadata of one entry: a 16-byte timestamp and a
/// flag, as they are laid out in memory.
pub const META_SIZE: i64 = 32;

pub struct MemTableMeta {
    pub timestamp: u128,
    pub deleted: bool,
}

pub struct MemTableEntry {
    pub key: Vec<u8>,
    pub value: Option<Vec<u8>>,
    pub meta: MemTableMeta,
}

impl MemTableEntry {
    /// A tombstone carries no value, and only a tombstone lacks one.
    pub open spec fn wf(&self) -> bool {
        self.meta.deleted == self.value.is_none()
    }
}

impl View for MemTableEntry {
    type V = Record;

    open spec fn view(&self) -> Record {
        Record { key: self.key@, value: opt_view(self.value), timestamp: self.meta.timestamp }
    }
}

/// The length of a record's value; a tombstone has none.
pub open spec fn value_len(r: Record) -> int {
    match r.value {
        Some(v) => v.len() as int,
        None => 0,
    }
}

/// The bytes that one record is accounted for: key, value and metadata.
pub open spec fn weight(r: Record) -> int {
    r.key.len() + value_len(r) + META_SIZE
}

/// The accounted size of a sequence of records.
pub open spec fn footprint(rs: Seq<Record>) -> int
    decreases rs.len(),
{
    if rs.len() == 0 {
        0
    } else {
        footprint(rs.drop_last()) + weight(rs.last())
    }
}

/// How the accounted size changes when `new` takes the place of `prev`.
pub open spec fn growth(prev: Option<Record>, new: Record) -> int {
    weight(new) - match prev {
        Some(p) => weight(p),
        None => 0,
    }
}

proof fn lemma_footprint_insert(rs: Seq<Record>, i: int, r: Record)
    requires
        0 <= i <= rs.len(),
    ensures
        footprint(rs.insert(i, r)) == footprint(rs) + weight(r),
    decreases rs.len(),
{
    let s = rs.insert(i, r);
    if i == rs.len() {
        assert(s.drop_last() =~= rs);
    } else {
        assert(s.drop_last() =~= rs.drop_last().insert(i, r));
        lemma_footprint_insert(rs.drop_last(), i, r);
    }
}

proof fn lemma_footprint_update(rs: Seq<Record>, i: int, r: Record)
    requires
        0 <= i < rs.len(),
    ensures
        footprint(rs.update(i, r)) == footprint(rs) - weight(rs[i]) + weight(r),
    decreases rs.len(),
{
    let s = rs.update(i, r);
    if i == rs.len() - 1 {
        assert(s.drop_last() =~= rs.drop_last());
    } else {
        assert(s.drop_last() =~= rs.drop_last().update(i, r));
        lemma_footprint_update(rs.drop_last(), i, r);
    }
}

proof fn lemma_footprint_nonneg(rs: Seq<Record>)
    ensures
        footprint(rs) >= 0,
    decreases rs.len(),
{
    if rs.len() > 0 {
        lemma_footprint_nonneg(rs.drop_last());
    }
}

/// The accounted size of the table that replaying `log` into an empty table
/// builds.
pub open spec fn replay_size(log: Seq<Record>) -> int
    decreases log.len(),
{
    if log.len() == 0 {
        0
    } else {
        replay_size(log.drop_last()) + growth(latest(log.drop_last(), log.last().key), log.last())
    }
}

/// Replaying `log` into an empty table keeps its accounted size within an
/// `i64` after every record.
pub open spec fn replay_fits(log: Seq<Record>) -> bool
    decreases log.len(),
{
    log.len() == 0 || (replay_fits(log.drop_last()) && replay_size(log) <= i64::MAX)
}

proof fn lemma_fits_prefix(log: Seq<Record>, n: int)
    requires
        replay_fits(log),
        0 <= n <= log.len(),
    ensures
        replay_fits(log.subrange(0, n)),
    decreases log.len(),
{
    if n < log.len() {
        assert(log.drop_last().subrange(0, n) =~= log.subrange(0, n));
        lemma_fits_prefix(log.drop_last(), n);
    } else {
        assert(log.subrange(0, n) =~= log);
    }
}

#[derive(PartialEq, Eq, Structural, Clone, Copy, Debug)]
pub enum MemTableError {
    /// The table has been frozen and takes no more writes.
    Immutable,
    /// The accounted size would not fit an `i64`.
    SizeOverflow,
}

pub struct MemTable {
    entries: Vec<MemTableEntry>,
    size: i64,
    wal: Wal,
    is_immutable: bool,
}

impl MemTable {
    /// The table's records in key order.
    pub closed spec fn records(&self) -> Seq<Record> {
        self.entries@.map_values(|e: MemTableEntry| e@)
    }

    /// Keys ascend strictly, every entry is well formed, the size is the
    /// accounted size of the entries, and each key's entry is the newest record
    /// of that key in the log.
    pub closed spec fn wf(&self) -> bool {
        &&& forall|i: int| 0 <= i < self.entries@.len() ==> (#[trigger] self.entries@[i]).wf()
        &&& sorted_by_key(self.records())
        &&& self.size == footprint(self.records())
        &&& self.wal.wf()
        &&& forall|k: Seq<u8>| #[trigger] find(self.records(), k) == latest(self.wal.records(), k)
    }

    /// The entry for key `k`, if the table holds one.
    pub open spec fn lookup(&self, k: Seq<u8>) -> Option<Record> {
        find(self.records(), k)
    }

    pub closed spec fn spec_size(&self) -> int {
        self.size as int
    }

    pub closed spec fn frozen(&self) -> bool {
        self.is_immutable
    }

    /// The table's write-ahead log.
    pub closed spec fn log(&self) -> Wal {
        self.wal
    }

    /// A table's entries are the newest records of its log.
    pub proof fn lemma_lookup_latest(&self, k: Seq<u8>)
        requires
            self.wf(),
        ensures
            self.lookup(k) == latest(self.log().records(), k),
    {
    }

    /// Reading the table's log file back gives every record it logged.
    pub proof fn lemma_log_replays(&self)
        requires
            self.wf(),
        ensures
            parse_all(self.log().contents()) == self.log().records(),
    {
        self.wal.lemma_contents_replay();
    }

    /// An empty, writable table that logs to a new log with the given id.
    pub fn new(wal_id: u128) -> (t: MemTable)
        ensures
            t.wf(),
            !t.frozen(),
            t.spec_size() == 0,
            t.log().spec_id() == wal_id,
            t.log().records() == Seq::<Record>::empty(),
            t.log().contents() == Seq::<u8>::empty(),
            t.log().pending() == Seq::<u8>::empty(),
            forall|k: Seq<u8>| #[trigger] t.lookup(k) is None,
    {
        let t = MemTable { entries: Vec::new(), size: 0, wal: Wal::new(wal_id), is_immutable: false };
        assert(t.records() =~= Seq::<Record>::empty());
        t
    }

    /// Where `key` stands: `Ok` with its index, or `Err` with the index at
    /// which it would be inserted.
    fn get_index(&self, key: &[u8]) -> (r: Result<usize, usize>)
        requires
            self.wf(),
        ensures
            match r {
                Ok(i) => i < self.entries@.len() && self.entries@[i as int].key@ == key@,
                Err(i) => i <= self.entries@.len() && (forall|j: int|
                    0 <= j < i ==> key_lt(#[trigger] self.entries@[j].key@, key@)) && (forall|j: int|
                    i <= j < self.entries@.len() ==> key_lt(key@, #[trigger] self.entries@[j].key@)),
            },
    {
        let ghost rs = self.records();
        let mut lo: usize = 0;
        let mut hi: usize = self.entries.len();
        while lo < hi
            invariant
                lo <= hi <= self.entries@.len(),
                rs == self.records(),
                sorted_by_key(rs),
                forall|j: int| 0 <= j < lo ==> key_lt(#[trigger] self.entries@[j].key@, key@),
                forall|j: int|
                    hi <= j < self.entries@.len() ==> key_lt(key@, #[trigger] self.entries@[j].key@),
            decreases hi - lo,
        {
            let mid = lo + (hi - lo) / 2;
            match compare_keys(self.entries[mid].key.as_slice(), key) {
                KeyOrder::Equal => {
                    return Ok(mid);
                },
                KeyOrder::Less => {
                    assert forall|j: int| 0 <= j < mid + 1 implies key_lt(
                        #[trigger] self.entries@[j].key@,
                        key@,
                    ) by {
                        if j < mid {
                            assert(rs[j].key == self.entries@[j].key@);
                            assert(rs[mid as int].key == self.entries@[mid as int].key@);
                            lemma_key_lt_transitive(
                                self.entries@[j].key@,
                                self.entries@[mid as int].key@,
                                key@,
                            );
                        }
                    }
                    lo = mid + 1;
                },
                KeyOrder::Greater => {
                    assert forall|j: int| mid <= j < self.entries@.len() implies key_lt(
                        key@,
                        #[trigger] self.entries@[j].key@,
                    ) by {
                        if mid < j && j < hi {
                            assert(rs[j].key == self.entries@[j].key@);
                            assert(rs[mid as int].key == self.entries@[mid as int].key@);
                            lemma_key_lt_transitive(
                                key@,
                                self.entries@[mid as int].key@,
                                self.entries@[j].key@,
                            );
                        }
                    }
                    hi = mid;
                },
            }
        }
        Err(lo)
    }

    proof fn lemma_absent(&self, key: Seq<u8>, i: int)
        requires
            self.wf(),
            0 <= i <= self.entries@.len(),
            forall|j: int| 0 <= j < i ==> key_lt(#[trigger] self.entries@[j].key@, key),
            forall|j: int| i <= j < self.entries@.len() ==> key_lt(key, #[trigger] self.entries@[j].key@),
        ensures
            self.lookup(key) is None,
    {
        let rs = self.records();
        assert forall|j: int| 0 <= j < rs.len() implies #[trigger] rs[j].key != key by {
            assert(rs[j].key == self.entries@[j].key@);
            crate::keys::lemma_key_lt_irreflexive(key);
        }
        crate::ds::lemma_find_none(rs, key);
    }

    /// Puts `entry` in the table at the place of `key`, and updates the size.
    fn place(&mut self, key: &[u8], entry: MemTableEntry, new_size: i64, at: Result<usize, usize>)
        requires
            old(self).wf(),
            entry.wf(),
            entry.key@ == key@,
            new_size == footprint(old(self).records()) + growth(old(self).lookup(key@), entry@),
            match at {
                Ok(i) => i < old(self).entries@.len() && old(self).entries@[i as int].key@ == key@,
                Err(i) => i <= old(self).entries@.len() && (forall|j: int|
                    0 <= j < i ==> key_lt(#[trigger] old(self).entries@[j].key@, key@)) && (forall|
                    j: int,
                |
                    i <= j < old(self).entries@.len() ==> key_lt(
                        key@,
                        #[trigger] old(self).entries@[j].key@,
                    )),
            },
        ensures
            sorted_by_key(final(self).records()),
            forall|i: int|
                0 <= i < final(self).entries@.len() ==> (#[trigger] final(self).entries@[i]).wf(),
            final(self).size == footprint(final(self).records()),
            final(self).size == new_size,
            forall|k: Seq<u8>|
                #[trigger] find(final(self).records(), k) == if k == key@ {
                    Some(entry@)
                } else {
                    find(old(self).records(), k)
                },
            final(self).wal == old(self).wal,
            final(self).is_immutable == old(self).is_immutable,
    {
        let ghost rs = self.records();
        let ghost r = entry@;
        match at {
            Ok(i) => {
                proof {
                    assert(rs[i as int].key == key@);
                    crate::ds::lemma_find_at(rs, i as int);
                    lemma_footprint_update(rs, i as int, r);
                }
                self.entries.set(i, entry);
                proof {
                    assert(self.records() =~= rs.update(i as int, r));
                    assert forall|k: Seq<u8>| #[trigger]
                        find(self.records(), k) == if k == key@ {
                            Some(r)
                        } else {
                            find(rs, k)
                        } by {
                        lemma_find_update(rs, i as int, r, k);
                    }
                    lemma_find_update(rs, i as int, r, key@);
                }
            },
            Err(i) => {
                proof {
                    assert forall|j: int| 0 <= j < i implies key_lt(#[trigger] rs[j].key, r.key) by {
                        assert(rs[j].key == old(self).entries@[j].key@);
                    }
                    assert forall|j: int| i <= j < rs.len() implies key_lt(
                        r.key,
                        #[trigger] rs[j].key,
                    ) by {
                        assert(rs[j].key == old(self).entries@[j].key@);
                    }
                    assert forall|j: int| 0 <= j < rs.len() implies #[trigger] rs[j].key != key@ by {
                        crate::keys::lemma_key_lt_irreflexive(key@);
                        if j < i {
                            assert(key_lt(rs[j].key, r.key));
                        } else {
                            assert(key_lt(r.key, rs[j].key));
                        }
                    }
                    crate::ds::lemma_find_none(rs, key@);
                    lemma_footprint_insert(rs, i as int, r);
                }
                self.entries.insert(i, entry);
                proof {
                    assert(self.records() =~= rs.insert(i as int, r));
                    assert forall|k: Seq<u8>| #[trigger]
                        find(self.records(), k) == if k == key@ {
                            Some(r)
                        } else {
                            find(rs, k)
                        } by {
                        lemma_find_insert(rs, i as int, r, k);
                    }
                    lemma_find_insert(rs, i as int, r, key@);
                }
            },
        }
        self.size = new_size;
    }

    /// The accounted length of the value of the entry at `at`, if any.
    fn prev_value_len(&self, at: Result<usize, usize>) -> (r: usize)
        requires
            self.wf(),
            at matches Ok(i) ==> i < self.entries@.len(),
        ensures
            at matches Ok(i) ==> r == value_len(self.entries@[i as int]@),
            at is Err ==> r == 0,
    {
        match at {
            Ok(i) => match &self.entries[i].value {
                Some(v) => v.len(),
                None => 0,
            },
            Err(_) => 0,
        }
    }

    /// Stores a live entry for `key` and logs it.
    pub fn set(&mut self, key: &[u8], value: &[u8], timestamp: u128) -> (r: Result<
        (),
        MemTableError,
    >)
        requires
            old(self).wf(),
        ensures
            final(self).wf(),
            final(self).log().spec_id() == old(self).log().spec_id(),
            final(self).frozen() == old(self).frozen(),
            old(self).frozen() ==> r == Err::<(), MemTableError>(MemTableError::Immutable),
            !old(self).frozen() && old(self).spec_size() + growth(
                old(self).lookup(key@),
                Record { key: key@, value: Some(value@), timestamp },
            ) > i64::MAX ==> r == Err::<(), MemTableError>(MemTableError::SizeOverflow),
            r is Err ==> *final(self) == *old(self),
            r is Ok ==> {
                let rec = Record { key: key@, value: Some(value@), timestamp };
                &&& final(self).spec_size() == old(self).spec_size() + growth(
                    old(self).lookup(key@),
                    rec,
                )
                &&& forall|k: Seq<u8>| #[trigger]
                    final(self).lookup(k) == if k == key@ {
                        Some(rec)
                    } else {
                        old(self).lookup(k)
                    }
                &&& final(self).log().records() == old(self).log().records().push(rec)
                &&& final(self).log().pending() == old(self).log().pending()
                    + crate::codec::frames(seq![rec])
                &&& final(self).log().contents() == old(self).log().contents()
                    + crate::codec::frames(seq![rec])
            },
            r is Ok <==> !old(self).frozen() && old(self).spec_size() + growth(
                old(self).lookup(key@),
                Record { key: key@, value: Some(value@), timestamp },
            ) <= i64::MAX,
    {
        if self.is_immutable {
            return Err(MemTableError::Immutable);
        }
        let at = self.get_index(key);
        let prev = self.prev_value_len(at);
        let grow: i128 = match at {
            Ok(_) => value.len() as i128 - prev as i128,
            Err(_) => key.len() as i128 + value.len() as i128 + META_SIZE as i128,
        };
        let ghost rec = Record { key: key@, value: Some(value@), timestamp };
        proof {
            if let Ok(i) = at {
                crate::ds::lemma_find_at(self.records(), i as int);
            } else if let Err(i) = at {
                self.lemma_absent(key@, i as int);
            }
            assert(grow == growth(self.lookup(key@), rec));
            lemma_footprint_nonneg(self.records());
            if let Ok(i) = at {
                lemma_footprint_update(self.records(), i as int, rec);
                lemma_footprint_nonneg(self.records().update(i as int, rec));
            }
        }
        if self.size as i128 + grow > i64::MAX as i128 {
            return Err(MemTableError::SizeOverflow);
        }
        let ghost before = *self;
        let new_size = (self.size as i128 + grow) as i64;
        let k = slice_to_vec(key);
        let v = slice_to_vec(value);
        let entry = MemTableEntry {
            key: k,
            value: Some(v),
            meta: MemTableMeta { timestamp, deleted: false },
        };
        proof {
            lemma_footprint_nonneg(self.records());
        }
        self.place(key, entry, new_size, at);
        self.wal.set(key, value, timestamp);
        proof {
            assert forall|k: Seq<u8>| #[trigger]
                find(self.records(), k) == latest(self.wal.records(), k) by {
                lemma_latest_push(before.wal.records(), rec, k);
                assert(find(before.records(), k) == latest(before.wal.records(), k));
            }
            lemma_footprint_nonneg(self.records());
        }
        Ok(())
    }

    /// Stores a tombstone for `key` and logs it.
    pub fn delete(&mut self, key: &[u8], timestamp: u128) -> (r: Result<(), MemTableError>)
        requires
            old(self).wf(),
        ensures
            final(self).wf(),
            final(self).log().spec_id() == old(self).log().spec_id(),
            final(self).frozen() == old(self).frozen(),
            old(self).frozen() ==> r == Err::<(), MemTableError>(MemTableError::Immutable),
            !old(self).frozen() && old(self).spec_size() + growth(
                old(self).lookup(key@),
                Record { key: key@, value: None, timestamp },
            ) > i64::MAX ==> r == Err::<(), MemTableError>(MemTableError::SizeOverflow),
            r is Err ==> *final(self) == *old(self),
            r is Ok ==> {
                let rec = Record { key: key@, value: None, timestamp };
                &&& final(self).spec_size() == old(self).spec_size() + growth(
                    old(self).lookup(key@),
                    rec,
                )
                &&& forall|k: Seq<u8>| #[trigger]
                    final(self).lookup(k) == if k == key@ {
                        Some(rec)
                    } else {
                        old(self).lookup(k)
                    }
                &&& final(self).log().records() == old(self).log().records().push(rec)
                &&& final(self).log().pending() == old(self).log().pending()
                    + crate::codec::frames(seq![rec])
                &&& final(self).log().contents() == old(self).log().contents()
                    + crate::codec::frames(seq![rec])
            },
            r is Ok <==> !old(self).frozen() && old(self).spec_size() + growth(
                old(self).lookup(key@),
                Record { key: key@, value: None, timestamp },
            ) <= i64::MAX,
    {
        if self.is_immutable {
            return Err(MemTableError::Immutable);
        }
        let at = self.get_index(key);
        let prev = self.prev_value_len(at);
        let grow: i128 = match at {
            Ok(_) => 0 - prev as i128,
            Err(_) => key.len() as i128 + META_SIZE as i128,
        };
        let ghost rec = Record { key: key@, value: None, timestamp };
        proof {
            if let Ok(i) = at {
                crate::ds::lemma_find_at(self.records(), i as int);
            } else if let Err(i) = at {
                self.lemma_absent(key@, i as int);
            }
            assert(grow == growth(self.lookup(key@), rec));
            lemma_footprint_nonneg(self.records());
            if let Ok(i) = at {
                lemma_footprint_update(self.records(), i as int, rec);
                lemma_footprint_nonneg(self.records().update(i as int, rec));
            }
        }
        if self.size as i128 + grow > i64::MAX as i128 {
            return Err(MemTableError::SizeOverflow);
        }
        let ghost before = *self;
        let new_size = (self.size as i128 + grow) as i64;
        let k = slice_to_vec(key);
        let entry = MemTableEntry { key: k, value: None, meta: MemTableMeta { timestamp, deleted: true } };
        proof {
            lemma_footprint_nonneg(self.records());
        }
        self.place(key, entry, new_size, at);
        self.wal.delete(key, timestamp);
        proof {
            assert forall|k: Seq<u8>| #[trigger]
                find(self.records(), k) == latest(self.wal.records(), k) by {
                lemma_latest_push(before.wal.records(), rec, k);
                assert(find(before.records(), k) == latest(before.wal.records(), k));
            }
            lemma_footprint_nonneg(self.records());
        }
        Ok(())
    }

    /// Recovery: replays the given log files, in ascending order of id, into
    /// a new table that logs every replayed record again to a new log with id
    /// `wal_id`. Fails when the accounted size would leave the `i64` range.
    pub fn load_from_dir(wal_id: u128, files: Vec<FileImage>) -> (r: Result<MemTable, MemTableError>)
        ensures
            r is Ok <==> replay_fits(recovered_log(file_views(files@))),
            r is Err ==> r == Err::<MemTable, MemTableError>(MemTableError::SizeOverflow),
            r matches Ok(t) ==> {
                &&& t.wf()
                &&& !t.frozen()
                &&& t.log().spec_id() == wal_id
                &&& t.log().records() == recovered_log(file_views(files@))
                &&& t.log().pending() == t.log().contents()
                &&& t.spec_size() == replay_size(recovered_log(file_views(files@)))
            },
    {
        let sorted = sort_files(files);
        let ghost fs = file_views(sorted@);
        let mut table = MemTable::new(wal_id);
        let mut i: usize = 0;
        proof {
            assert(fs.subrange(0, 0) =~= Seq::<(u128, Seq<u8>)>::empty());
        }
        while i < sorted.len()
            invariant
                i <= sorted@.len(),
                fs == file_views(sorted@),
                fs == crate::wal::sort_by_id(file_views(files@)),
                table.wf(),
                !table.frozen(),
                table.log().spec_id() == wal_id,
                table.log().pending() == table.log().contents(),
                table.log().records() == replay_log(fs.subrange(0, i as int)),
                replay_fits(table.log().records()),
                table.spec_size() == replay_size(table.log().records()),
            decreases sorted@.len() - i,
        {
            let entries = read_entries(sorted[i].bytes.as_slice());
            let ghost base = table.log().records();
            let ghost parsed = parse_all(fs[i as int].1);
            let mut j: usize = 0;
            proof {
                assert(fs[i as int] == sorted@[i as int]@);
                assert(entry_records(entries@.subrange(0, 0)) =~= Seq::<Record>::empty());
                assert(base + Seq::<Record>::empty() =~= base);
            }
            while j < entries.len()
                invariant
                    i < sorted@.len(),
                    j <= entries@.len(),
                    fs == file_views(sorted@),
                    entry_records(entries@) == parsed,
                    parsed == parse_all(fs[i as int].1),
                    base == replay_log(fs.subrange(0, i as int)),
                    forall|a: int| 0 <= a < entries@.len() ==> (#[trigger] entries@[a]).wf(),
                    table.wf(),
                    !table.frozen(),
                    table.log().spec_id() == wal_id,
                    table.log().pending() == table.log().contents(),
                    table.log().records() == base + entry_records(entries@.subrange(0, j as int)),
                    replay_fits(table.log().records()),
                    table.spec_size() == replay_size(table.log().records()),
                    fs == crate::wal::sort_by_id(file_views(files@)),
                decreases entries@.len() - j,
            {
                let e = &entries[j];
                let ghost rec = e@;
                let ghost log = table.log().records();
                proof {
                    table.lemma_lookup_latest(e.key@);
                    assert(log.push(rec).drop_last() =~= log);
                    assert(entry_records(entries@.subrange(0, j + 1)) =~= entry_records(
                        entries@.subrange(0, j as int),
                    ).push(rec));
                }
                let res = match &e.value {
                    Some(v) => table.set(e.key.as_slice(), v.as_slice(), e.timestamp),
                    None => table.delete(e.key.as_slice(), e.timestamp),
                };
                if res.is_err() {
                    proof {
                        let full = recovered_log(file_views(files@));
                        let upto = replay_log(fs.subrange(0, i + 1));
                        assert(fs.subrange(0, i + 1).drop_last() =~= fs.subrange(0, i as int));
                        assert(upto == base + parsed);
                        crate::wal::lemma_replay_prefix(fs, i + 1);
                        assert(log.push(rec) =~= upto.subrange(0, log.len() as int + 1));
                        assert(log.push(rec) =~= full.subrange(0, log.len() as int + 1));
                        if replay_fits(full) {
                            lemma_fits_prefix(full, log.len() as int + 1);
                        }
                    }
                    return Err(MemTableError::SizeOverflow);
                }
                proof {
                    assert(table.log().records() =~= base + entry_records(
                        entries@.subrange(0, j + 1),
                    ));
                }
                j = j + 1;
            }
            proof {
                assert(entries@.subrange(0, entries@.len() as int) =~= entries@);
                assert(fs.subrange(0, i + 1).drop_last() =~= fs.subrange(0, i as int));
            }
            i = i + 1;
        }
        proof {
            assert(fs.subrange(0, fs.len() as int) =~= fs);
        }
        Ok(table)
    }

    /// The entry for `key`, if the table holds one (a tombstone included).
    pub fn get(&self, key: &[u8]) -> (r: Option<&MemTableEntry>)
        requires
            self.wf(),
        ensures
            match r {
                Some(e) => self.lookup(key@) == Some(e@) && e.wf(),
                None => self.lookup(key@) is None,
            },
    {
        match self.get_index(key) {
            Ok(i) => {
                proof {
                    crate::ds::lemma_find_at(self.records(), i as int);
                }
                Some(&self.entries[i])
            },
            Err(i) => {
                proof {
                    self.lemma_absent(key@, i as int);
                }
                None
            },
        }
    }

    /// The table's entries, in key order, as table entries.
    pub fn to_table_entries(&self) -> (r: Vec<TableEntry>)
        requires
            self.wf(),
        ensures
            entry_records(r@) == self.records(),
            sorted_by_key(entry_records(r@)),
            forall|i: int| 0 <= i < r@.len() ==> (#[trigger] r@[i]).wf(),
    {
        let mut out: Vec<TableEntry> = Vec::new();
        let mut i: usize = 0;
        while i < self.entries.len()
            invariant
                i <= self.entries@.len(),
                self.wf(),
                entry_records(out@) == self.records().subrange(0, i as int),
                forall|a: int| 0 <= a < out@.len() ==> (#[trigger] out@[a]).wf(),
            decreases self.entries@.len() - i,
        {
            let e = &self.entries[i];
            assert(self.entries@[i as int].wf());
            let t = TableEntry {
                key: crate::ds::copy_bytes(&e.key),
                value: copy_opt(&e.value),
                timestamp: e.meta.timestamp,
                deleted: e.meta.deleted,
            };
            let ghost before = out@;
            out.push(t);
            proof {
                assert(entry_records(out@) =~= entry_records(before).push(t@));
                assert(self.records().subrange(0, i + 1) =~= self.records().subrange(0, i as int).push(
                    self.records()[i as int],
                ));
            }
            i = i + 1;
        }
        assert(self.records().subrange(0, self.records().len() as int) =~= self.records());
        out
    }

    /// The accounted size in bytes.
    pub fn size(&self) -> (r: i64)
        ensures
            r == self.spec_size(),
    {
        self.size
    }

    /// Freezes the table: later writes fail with `Immutable`.
    pub fn to_immutable(&mut self)
        requires
            old(self).wf(),
        ensures
            final(self).wf(),
            final(self).frozen(),
            final(self).records() == old(self).records(),
            final(self).log() == old(self).log(),
            final(self).spec_size() == old(self).spec_size(),
    {
        self.is_immutable = true;
    }

    /// The id of the table's log file.
    pub fn wal_id(&self) -> (r: u128)
        ensures
            r == self.log().spec_id(),
    {
        self.wal.id()
    }

    /// Hands out the log bytes staged since the last call, to be appended to
    /// the log file.
    pub fn flush_wal(&mut self) -> (bytes: Vec<u8>)
        requires
            old(self).wf(),
        ensures
            final(self).wf(),
            bytes@ == old(self).log().pending(),
            final(self).log().pending() == Seq::<u8>::empty(),
            final(self).log().contents() == old(self).log().contents(),
            final(self).log().records() == old(self).log().records(),
            final(self).log().spec_id() == old(self).log().spec_id(),
            final(self).records() == old(self).records(),
            final(self).frozen() == old(self).frozen(),
            final(self).spec_size() == old(self).spec_size(),
    {
        self.wal.flush()
    }
}

/// Copies a byte slice into a new vector.
pub fn slice_to_vec(s: &[u8]) -> (r: Vec<u8>)
    ensures
        r@ == s@,
{
    crate::codec::copy_range(s, 0, s.len())
}

} // verus!
