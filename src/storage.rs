//! The storage engine: one writable memtable in front of frozen ones, in front
//! of sorted runs loaded from table files.
//!
//! The engine decides; whoever owns the directory performs the file work. After
//! each write it takes the staged log bytes with `flush_wals` and appends each
//! batch to `<wal_id>.wal`; it may then turn frozen memtables into table files
//! with `flush_oldest_table`.
use vstd::prelude::*;
use crate::ds::{Record, latest, lemma_latest_concat, lemma_latest_push};
use crate::memtable::{MemTable, MemTableError, growth, replay_fits, replay_size};
use crate::sstable::{SortedRun, SstError};
use crate::ds::find;
use crate::wal::{
    FileImage, file_views, ids_strictly_ascending, lemma_sort_by_id_facts, lemma_sort_sorted,
    lemma_sorted_unique, recovered_log, replay_log, sort_by_id, sort_files,
};
use crate::codec::parse_all;

verus! {

pub struct StorageConfig {
    /// The accounted size at which the writable memtable is frozen.
    pub threshold_bytes: i64,
    /// The directory that holds the `*.wal` and `*.sst` files.
    pub dir: String,
}

impl StorageConfig {
    pub fn default_config() -> (c: Self)
        ensures
            c.threshold_bytes == 50,
            c.dir@ == "./tmp"@,
    {
        StorageConfig { threshold_bytes: 50, dir: "./tmp".to_owned() }
    }
}

#[derive(Debug)]
pub enum StorageError {
    /// No visible value for the key.
    NotFound(Vec<u8>),
    /// The writable memtable's accounted size would not fit an `i64`.
    SizeOverflow,
    /// A table file's keys do not ascend strictly, or two table files share
    /// an id.
    CorruptTable,
}

/// A table flushed from the oldest frozen memtable: write `bytes` to
/// `<sst_id>.sst`, and once that is durable, unlink `<wal_id>.wal`.
pub struct TableWrite {
    pub sst_id: u128,
    pub bytes: Vec<u8>,
    pub wal_id: u128,
}

/// The records of sorted runs, run after run.
pub open spec fn concat_runs(rs: Seq<SortedRun>) -> Seq<Record>
    decreases rs.len(),
{
    if rs.len() == 0 {
        seq![]
    } else {
        concat_runs(rs.drop_last()) + rs.last().records()
    }
}

/// Each run's table file: its id and its bytes.
pub open spec fn run_images(rs: Seq<SortedRun>) -> Seq<(u128, Seq<u8>)> {
    rs.map_values(|r: SortedRun| (r.spec_id(), r.contents()))
}

/// Table files that load: keys ascend strictly in each, and ids ascend
/// strictly from file to file.
pub open spec fn tables_load(fs: Seq<(u128, Seq<u8>)>) -> bool {
    &&& forall|a: int| 0 <= a < fs.len() ==> crate::ds::sorted_by_key(
        #[trigger] parse_all(fs[a].1),
    )
    &&& forall|a: int, b: int| 0 <= a < b < fs.len() ==> (#[trigger] fs[a]).0 < (#[trigger] fs[b]).0
}

/// Staged log bytes to append to the file `<wal_id>.wal`.
pub struct WalWrite {
    pub wal_id: u128,
    pub bytes: Vec<u8>,
}

/// The records of the logs of `ts`, table after table.
pub open spec fn concat_logs(ts: Seq<MemTable>) -> Seq<Record>
    decreases ts.len(),
{
    if ts.len() == 0 {
        seq![]
    } else {
        concat_logs(ts.drop_last()) + ts.last().log().records()
    }
}

/// The value that a log makes visible for `k`: that of its newest record for
/// `k`, none when that record is a tombstone or there is none.
pub open spec fn value_in(log: Seq<Record>, k: Seq<u8>) -> Option<Seq<u8>> {
    match latest(log, k) {
        Some(r) => r.value,
        None => None,
    }
}

/// The id of the log that the next writable memtable gets: the clock's
/// reading, unless that does not come after the current log's id.
pub open spec fn next_wal_id(last: u128, now: u128) -> u128 {
    if now > last {
        now
    } else {
        (last + 1) as u128
    }
}

pub struct Storage {
    mutable: MemTable,
    immutable: Vec<MemTable>,
    ssts: Vec<SortedRun>,
    config: StorageConfig,
}

impl Storage {
    /// The writable memtable.
    pub closed spec fn active(&self) -> MemTable {
        self.mutable
    }

    /// The frozen memtables, oldest first.
    pub closed spec fn frozen_tables(&self) -> Seq<MemTable> {
        self.immutable@
    }

    /// The sorted runs, oldest first.
    pub closed spec fn runs(&self) -> Seq<SortedRun> {
        self.ssts@
    }

    pub closed spec fn threshold(&self) -> int {
        self.config.threshold_bytes as int
    }

    /// Every memtable, oldest first; the writable one is last.
    pub open spec fn tables(&self) -> Seq<MemTable> {
        self.frozen_tables().push(self.active())
    }

    /// Every record the engine holds, oldest first: the runs' records, then
    /// the memtables' logs.
    pub open spec fn all_log(&self) -> Seq<Record> {
        concat_runs(self.runs()) + concat_logs(self.tables())
    }

    /// The value that `get` returns for `k`.
    pub open spec fn value_of(&self, k: Seq<u8>) -> Option<Seq<u8>> {
        value_in(self.all_log(), k)
    }

    /// Every table is well formed, only the last one is writable, and log ids
    /// ascend from the oldest table to the newest.
    pub open spec fn wf(&self) -> bool {
        &&& self.active().wf()
        &&& !self.active().frozen()
        &&& forall|a: int|
            0 <= a < self.frozen_tables().len() ==> (#[trigger] self.frozen_tables()[a]).wf()
                && self.frozen_tables()[a].frozen() && self.frozen_tables()[a].log().spec_id()
                < self.active().log().spec_id()
        &&& forall|a: int, b: int|
            0 <= a < b < self.frozen_tables().len() ==> (
            #[trigger] self.frozen_tables()[a]).log().spec_id() < (
            #[trigger] self.frozen_tables()[b]).log().spec_id()
        &&& forall|a: int| 0 <= a < self.runs().len() ==> (#[trigger] self.runs()[a]).wf()
        &&& forall|a: int, b: int|
            0 <= a < b < self.runs().len() ==> (#[trigger] self.runs()[a]).spec_id() < (
            #[trigger] self.runs()[b]).spec_id()
    }

    /// The engine's records are those of the runs, then those of the frozen
    /// tables, then those of the writable one.
    pub proof fn lemma_all_log_split(&self)
        ensures
            self.all_log() == concat_runs(self.runs()) + concat_logs(self.frozen_tables())
                + self.active().log().records(),
    {
        assert(self.tables().drop_last() =~= self.frozen_tables());
        assert(self.all_log() =~= concat_runs(self.runs()) + concat_logs(self.frozen_tables())
            + self.active().log().records());
    }

    /// The table files of the engine's runs, oldest first.
    pub open spec fn sst_images(&self) -> Seq<(u128, Seq<u8>)> {
        run_images(self.runs())
    }

    /// The log files of the engine's tables, oldest first: each one's id and
    /// what it holds once everything staged is flushed.
    pub open spec fn wal_images(&self) -> Seq<(u128, Seq<u8>)> {
        log_images(self.tables())
    }

    /// Opens the engine over a directory whose log files are `wal_files` and
    /// whose table files are `sst_files`. The tables are loaded in ascending
    /// order of id; the logs' records are replayed, in ascending order of id,
    /// into one writable memtable with a new log of id `wal_id`.
    pub fn new(
        config: StorageConfig,
        wal_id: u128,
        wal_files: Vec<FileImage>,
        sst_files: Vec<FileImage>,
    ) -> (r: Result<Self, StorageError>)
        ensures
            r is Ok <==> tables_load(sort_by_id(file_views(sst_files@))) && replay_fits(
                recovered_log(file_views(wal_files@)),
            ),
            !tables_load(sort_by_id(file_views(sst_files@))) ==> (r matches Err(
                StorageError::CorruptTable,
            )),
            tables_load(sort_by_id(file_views(sst_files@))) && r is Err ==> (r matches Err(
                StorageError::SizeOverflow,
            )),
            r matches Ok(s) ==> {
                &&& s.wf()
                &&& s.all_log() == recovered_log(file_views(sst_files@)) + recovered_log(
                    file_views(wal_files@),
                )
                &&& s.frozen_tables() == Seq::<MemTable>::empty()
                &&& s.active().log().spec_id() == wal_id
                &&& s.active().log().pending() == s.active().log().contents()
                &&& s.active().spec_size() == replay_size(recovered_log(file_views(wal_files@)))
                &&& s.threshold() == config.threshold_bytes
            },
    {
        let runs = match load_runs(sst_files) {
            Ok(runs) => runs,
            Err(_) => {
                return Err(StorageError::CorruptTable);
            },
        };
        match MemTable::load_from_dir(wal_id, wal_files) {
            Ok(t) => Ok(Storage::from_parts(t, runs, config)),
            Err(_) => Err(StorageError::SizeOverflow),
        }
    }

    /// An engine over a recovered writable memtable and loaded runs.
    fn from_parts(mutable: MemTable, runs: Vec<SortedRun>, config: StorageConfig) -> (s: Self)
        requires
            mutable.wf(),
            !mutable.frozen(),
            forall|a: int| 0 <= a < runs@.len() ==> (#[trigger] runs@[a]).wf(),
            forall|a: int, b: int|
                0 <= a < b < runs@.len() ==> (#[trigger] runs@[a]).spec_id() < (
                #[trigger] runs@[b]).spec_id(),
        ensures
            s.wf(),
            s.active() == mutable,
            s.frozen_tables() == Seq::<MemTable>::empty(),
            s.runs() == runs@,
            s.threshold() == config.threshold_bytes,
            s.all_log() == concat_runs(runs@) + mutable.log().records(),
    {
        let s = Storage { mutable, immutable: Vec::new(), ssts: runs, config };
        proof {
            s.lemma_all_log_split();
            assert(concat_logs(s.frozen_tables()) =~= Seq::<Record>::empty());
            assert(s.all_log() =~= concat_runs(runs@) + mutable.log().records());
        }
        s
    }

    /// The value of `key`: the newest entry for it, searched in the writable
    /// memtable, then in the frozen ones from newest to oldest. A tombstone
    /// there hides every older value.
    pub fn get(&self, key: &[u8]) -> (r: Result<Vec<u8>, StorageError>)
        requires
            self.wf(),
        ensures
            match r {
                Ok(v) => self.value_of(key@) == Some(v@),
                Err(e) => self.value_of(key@) is None && (e matches StorageError::NotFound(k)
                    && k@ == key@),
            },
    {
        let ghost k = key@;
        let ghost base = concat_runs(self.runs());
        proof {
            self.lemma_all_log_split();
            assert(self.frozen_tables().subrange(0, self.frozen_tables().len() as int)
                =~= self.frozen_tables());
            self.mutable.lemma_lookup_latest(k);
            lemma_latest_concat(
                base + concat_logs(self.frozen_tables()),
                self.mutable.log().records(),
                k,
            );
        }
        if let Some(e) = self.mutable.get(key) {
            return match &e.value {
                Some(v) => Ok(crate::ds::copy_bytes(v)),
                None => Err(StorageError::NotFound(crate::memtable::slice_to_vec(key))),
            };
        }
        let mut i: usize = self.immutable.len();
        while i > 0
            invariant
                i <= self.immutable@.len(),
                self.wf(),
                k == key@,
                base == concat_runs(self.runs()),
                latest(self.all_log(), k) == latest(
                    base + concat_logs(self.frozen_tables().subrange(0, i as int)),
                    k,
                ),
            decreases i,
        {
            let ghost prefix = self.frozen_tables().subrange(0, i as int);
            proof {
                assert(prefix.drop_last() =~= self.frozen_tables().subrange(0, i - 1));
                assert(prefix.last() == self.immutable@[i - 1]);
                assert(concat_logs(prefix) == concat_logs(prefix.drop_last())
                    + prefix.last().log().records());
                assert(base + concat_logs(prefix) =~= (base + concat_logs(prefix.drop_last()))
                    + prefix.last().log().records());
                assert(self.frozen_tables()[i - 1].wf());
                self.immutable@[i - 1].lemma_lookup_latest(k);
                lemma_latest_concat(
                    base + concat_logs(prefix.drop_last()),
                    self.immutable@[i - 1].log().records(),
                    k,
                );
            }
            let t = &self.immutable[i - 1];
            assert(*t == self.immutable@[i - 1]);
            let found = t.get(key);
            if let Some(e) = found {
                return match &e.value {
                    Some(v) => Ok(crate::ds::copy_bytes(v)),
                    None => Err(StorageError::NotFound(crate::memtable::slice_to_vec(key))),
                };
            }
            i = i - 1;
        }
        proof {
            assert(self.frozen_tables().subrange(0, 0) =~= Seq::<MemTable>::empty());
            assert(base + concat_logs(Seq::<MemTable>::empty()) =~= base);
            assert(self.runs().subrange(0, self.runs().len() as int) =~= self.runs());
        }
        let mut j: usize = self.ssts.len();
        while j > 0
            invariant
                j <= self.ssts@.len(),
                self.wf(),
                k == key@,
                latest(self.all_log(), k) == latest(
                    concat_runs(self.runs().subrange(0, j as int)),
                    k,
                ),
            decreases j,
        {
            let ghost prefix = self.runs().subrange(0, j as int);
            proof {
                assert(prefix.drop_last() =~= self.runs().subrange(0, j - 1));
                assert(prefix.last() == self.ssts@[j - 1]);
                assert(self.runs()[j - 1].wf());
                self.ssts@[j - 1].lemma_run_facts(k);
                lemma_latest_concat(
                    concat_runs(prefix.drop_last()),
                    self.ssts@[j - 1].records(),
                    k,
                );
            }
            let run = &self.ssts[j - 1];
            assert(*run == self.ssts@[j - 1]);
            let found = run.get(key);
            if let Some(e) = found {
                return match &e.value {
                    Some(v) => Ok(crate::ds::copy_bytes(v)),
                    None => Err(StorageError::NotFound(crate::memtable::slice_to_vec(key))),
                };
            }
            j = j - 1;
        }
        proof {
            assert(self.runs().subrange(0, 0) =~= Seq::<SortedRun>::empty());
        }
        Err(StorageError::NotFound(crate::memtable::slice_to_vec(key)))
    }

    /// Freezes the writable memtable once its accounted size reaches the
    /// threshold, and installs a new one whose log id comes after every other.
    /// Returns whether it did; no id is left after `u128::MAX`.
    pub fn create_immutable_if_exceed_threshold(&mut self, now: u128) -> (rotated: bool)
        requires
            old(self).wf(),
        ensures
            final(self).wf(),
            final(self).threshold() == old(self).threshold(),
            final(self).all_log() == old(self).all_log(),
            rotated == (old(self).active().spec_size() >= old(self).threshold()
                && old(self).active().log().spec_id() < u128::MAX),
            rotated ==> {
                &&& final(self).frozen_tables().len() == old(self).frozen_tables().len() + 1
                &&& final(self).active().spec_size() == 0
                &&& final(self).active().log().spec_id() == next_wal_id(
                    old(self).active().log().spec_id(),
                    now,
                )
                &&& final(self).active().log().records() == Seq::<Record>::empty()
            },
            !rotated ==> *final(self) == *old(self),
    {
        let last = self.mutable.wal_id();
        if self.mutable.size() >= self.config.threshold_bytes && last < u128::MAX {
            let next = if now > last {
                now
            } else {
                last + 1
            };
            let ghost before = *self;
            let mut frozen = MemTable::new(next);
            core::mem::swap(&mut self.mutable, &mut frozen);
            frozen.to_immutable();
            let ghost fz = frozen;
            self.immutable.push(frozen);
            proof {
                before.lemma_all_log_split();
                self.lemma_all_log_split();
                assert(self.frozen_tables() =~= before.frozen_tables().push(fz));
                assert(self.frozen_tables().drop_last() =~= before.frozen_tables());
                assert(concat_logs(self.frozen_tables()) == concat_logs(before.frozen_tables())
                    + fz.log().records());
                assert(self.all_log() =~= before.all_log());
                assert forall|a: int, b: int| 0 <= a < b < self.frozen_tables().len() implies (
                #[trigger] self.frozen_tables()[a]).log().spec_id() < (
                #[trigger] self.frozen_tables()[b]).log().spec_id() by {
                    if b < self.frozen_tables().len() - 1 {
                        assert(self.frozen_tables()[a] == before.frozen_tables()[a]);
                        assert(self.frozen_tables()[b] == before.frozen_tables()[b]);
                    } else {
                        assert(self.frozen_tables()[a] == before.frozen_tables()[a]);
                    }
                }
                assert forall|a: int| 0 <= a < self.frozen_tables().len() implies (
                #[trigger] self.frozen_tables()[a]).wf() && self.frozen_tables()[a].frozen()
                    && self.frozen_tables()[a].log().spec_id() < self.active().log().spec_id() by {
                    if a < self.frozen_tables().len() - 1 {
                        assert(self.frozen_tables()[a] == before.frozen_tables()[a]);
                    }
                }
            }
            true
        } else {
            false
        }
    }

    /// The ids of the log files of every memtable, oldest first: the files
    /// that dropping the engine unlinks.
    pub fn wal_ids(&self) -> (r: Vec<u128>)
        requires
            self.wf(),
        ensures
            r@.len() == self.tables().len(),
            forall|a: int| 0 <= a < r@.len() ==> r@[a] == (#[trigger] self.tables()[a]).log().spec_id(),
    {
        let mut ids: Vec<u128> = Vec::new();
        let mut i: usize = 0;
        while i < self.immutable.len()
            invariant
                i <= self.immutable@.len(),
                ids@.len() == i,
                forall|a: int| 0 <= a < i ==> ids@[a] == (#[trigger] self.immutable@[a]).log().spec_id(),
            decreases self.immutable@.len() - i,
        {
            ids.push(self.immutable[i].wal_id());
            i = i + 1;
        }
        ids.push(self.mutable.wal_id());
        proof {
            assert forall|a: int| 0 <= a < ids@.len() implies ids@[a] == (
            #[trigger] self.tables()[a]).log().spec_id() by {
                if a < self.immutable@.len() {
                    assert(self.tables()[a] == self.immutable@[a]);
                }
            }
        }
        ids
    }

    /// Flushes the oldest frozen memtable into a new sorted run, whose table
    /// file `<sst_id>.sst` is to hold the returned bytes; its id follows every
    /// run's. Once that file is durable, the memtable's log `<wal_id>.wal` may
    /// be unlinked. Returns `None`, changing nothing, when no memtable is
    /// frozen or no id is left after the newest run's.
    pub fn flush_oldest_table(&mut self) -> (w: Option<TableWrite>)
        requires
            old(self).wf(),
        ensures
            final(self).wf(),
            final(self).threshold() == old(self).threshold(),
            final(self).active() == old(self).active(),
            forall|k: Seq<u8>| #[trigger] latest(final(self).all_log(), k) == latest(
                old(self).all_log(),
                k,
            ),
            w is Some <==> old(self).frozen_tables().len() > 0 && (old(self).runs().len() == 0
                || old(self).runs().last().spec_id() < u128::MAX),
            w is None ==> *final(self) == *old(self),
            w matches Some(t) ==> {
                &&& final(self).frozen_tables() == old(self).frozen_tables().drop_first()
                &&& final(self).runs().drop_last() == old(self).runs()
                &&& t.wal_id == old(self).frozen_tables()[0].log().spec_id()
                &&& t.sst_id == final(self).runs().last().spec_id()
                &&& t.sst_id == if old(self).runs().len() == 0 {
                    t.wal_id
                } else {
                    next_wal_id(old(self).runs().last().spec_id(), t.wal_id)
                }
                &&& final(self).runs().last().records() == old(self).frozen_tables()[0].records()
                &&& t.bytes@ == final(self).runs().last().contents()
            },
    {
        if self.immutable.len() == 0 {
            return None;
        }
        let n = self.ssts.len();
        if n > 0 && self.ssts[n - 1].id() == u128::MAX {
            return None;
        }
        let ghost before = *self;
        let t = self.immutable.remove(0);
        proof {
            assert(t == before.frozen_tables()[0]);
            assert(before.frozen_tables()[0].wf());
        }
        let wal_id = t.wal_id();
        let sst_id = if n == 0 {
            wal_id
        } else {
            let last = self.ssts[n - 1].id();
            if wal_id > last {
                wal_id
            } else {
                last + 1
            }
        };
        let entries = t.to_table_entries();
        let (run, bytes) = SortedRun::from_entries(sst_id, entries);
        let ghost fresh = run;
        self.ssts.push(run);
        proof {
            let f = before.frozen_tables();
            let r0 = concat_runs(before.runs());
            let l0 = t.log().records();
            let recs = fresh.records();
            let x = concat_logs(f.drop_first()) + before.active().log().records();
            lemma_concat_logs_front(f);
            before.lemma_all_log_split();
            self.lemma_all_log_split();
            assert(self.frozen_tables() =~= f.drop_first());
            assert(self.runs() =~= before.runs().push(fresh));
            assert(self.runs().drop_last() =~= before.runs());
            assert(concat_runs(self.runs()) == r0 + recs);
            assert(before.all_log() =~= (r0 + l0) + x);
            assert(self.all_log() =~= (r0 + recs) + x);
            assert forall|k: Seq<u8>| #[trigger] latest(self.all_log(), k) == latest(
                before.all_log(),
                k,
            ) by {
                t.lemma_lookup_latest(k);
                fresh.lemma_run_facts(k);
                lemma_latest_concat(r0 + l0, x, k);
                lemma_latest_concat(r0 + recs, x, k);
                lemma_latest_concat(r0, l0, k);
                lemma_latest_concat(r0, recs, k);
            }
            assert forall|a: int| 0 <= a < self.frozen_tables().len() implies (
            #[trigger] self.frozen_tables()[a]).wf() && self.frozen_tables()[a].frozen()
                && self.frozen_tables()[a].log().spec_id() < self.active().log().spec_id() by {
                assert(self.frozen_tables()[a] == f[a + 1]);
            }
            assert forall|a: int, b: int| 0 <= a < b < self.frozen_tables().len() implies (
            #[trigger] self.frozen_tables()[a]).log().spec_id() < (
            #[trigger] self.frozen_tables()[b]).log().spec_id() by {
                assert(self.frozen_tables()[a] == f[a + 1]);
                assert(self.frozen_tables()[b] == f[b + 1]);
            }
            assert forall|a: int| 0 <= a < self.runs().len() implies (
            #[trigger] self.runs()[a]).wf() by {
                if a < self.runs().len() - 1 {
                    assert(self.runs()[a] == before.runs()[a]);
                }
            }
            assert forall|a: int, b: int| 0 <= a < b < self.runs().len() implies (
            #[trigger] self.runs()[a]).spec_id() < (#[trigger] self.runs()[b]).spec_id() by {
                assert(self.runs()[a] == before.runs()[a]);
                if b < self.runs().len() - 1 {
                    assert(self.runs()[b] == before.runs()[b]);
                } else if a < before.runs().len() - 1 {
                    assert(before.runs()[a].spec_id() < before.runs()[before.runs().len() - 1].spec_id());
                }
            }
        }
        Some(TableWrite { sst_id, bytes, wal_id })
    }

    /// Writes `value` for `key` with the given timestamp, then freezes the
    /// writable memtable if it has grown to the threshold.
    pub fn set(&mut self, key: &[u8], value: &[u8], timestamp: u128) -> (r: Result<(), StorageError>)
        requires
            old(self).wf(),
        ensures
            final(self).wf(),
            final(self).threshold() == old(self).threshold(),
            r is Ok <==> old(self).active().spec_size() + growth(
                old(self).active().lookup(key@),
                Record { key: key@, value: Some(value@), timestamp },
            ) <= i64::MAX,
            r is Err ==> *final(self) == *old(self) && (r matches Err(StorageError::SizeOverflow)),
            r is Ok ==> final(self).all_log() == old(self).all_log().push(
                Record { key: key@, value: Some(value@), timestamp },
            ),
            r is Ok ==> {
                let grown = old(self).active().spec_size() + growth(
                    old(self).active().lookup(key@),
                    Record { key: key@, value: Some(value@), timestamp },
                );
                if grown >= old(self).threshold() && old(self).active().log().spec_id() < u128::MAX {
                    &&& final(self).frozen_tables().len() == old(self).frozen_tables().len() + 1
                    &&& final(self).active().spec_size() == 0
                    &&& final(self).active().log().spec_id() == next_wal_id(
                        old(self).active().log().spec_id(),
                        timestamp,
                    )
                } else {
                    &&& final(self).frozen_tables() == old(self).frozen_tables()
                    &&& final(self).active().spec_size() == grown
                }
            },
    {
        let ghost before = *self;
        match self.mutable.set(key, value, timestamp) {
            Ok(()) => {},
            Err(_) => {
                return Err(StorageError::SizeOverflow);
            },
        }
        proof {
            self.lemma_write_extends_log(before, Record { key: key@, value: Some(value@), timestamp });
        }
        self.create_immutable_if_exceed_threshold(timestamp);
        Ok(())
    }

    /// Writes a tombstone for `key` with the given timestamp, then freezes the
    /// writable memtable if it has grown to the threshold.
    pub fn delete(&mut self, key: &[u8], timestamp: u128) -> (r: Result<(), StorageError>)
        requires
            old(self).wf(),
        ensures
            final(self).wf(),
            final(self).threshold() == old(self).threshold(),
            r is Ok <==> old(self).active().spec_size() + growth(
                old(self).active().lookup(key@),
                Record { key: key@, value: None, timestamp },
            ) <= i64::MAX,
            r is Err ==> *final(self) == *old(self) && (r matches Err(StorageError::SizeOverflow)),
            r is Ok ==> final(self).all_log() == old(self).all_log().push(
                Record { key: key@, value: None, timestamp },
            ),
            r is Ok ==> {
                let grown = old(self).active().spec_size() + growth(
                    old(self).active().lookup(key@),
                    Record { key: key@, value: None, timestamp },
                );
                if grown >= old(self).threshold() && old(self).active().log().spec_id() < u128::MAX {
                    &&& final(self).frozen_tables().len() == old(self).frozen_tables().len() + 1
                    &&& final(self).active().spec_size() == 0
                    &&& final(self).active().log().spec_id() == next_wal_id(
                        old(self).active().log().spec_id(),
                        timestamp,
                    )
                } else {
                    &&& final(self).frozen_tables() == old(self).frozen_tables()
                    &&& final(self).active().spec_size() == grown
                }
            },
    {
        let ghost before = *self;
        match self.mutable.delete(key, timestamp) {
            Ok(()) => {},
            Err(_) => {
                return Err(StorageError::SizeOverflow);
            },
        }
        proof {
            self.lemma_write_extends_log(before, Record { key: key@, value: None, timestamp });
        }
        self.create_immutable_if_exceed_threshold(timestamp);
        Ok(())
    }

    /// A write logged by the writable memtable extends the engine's log by
    /// that record.
    proof fn lemma_write_extends_log(&self, before: Storage, rec: Record)
        requires
            before.wf(),
            self.immutable == before.immutable,
            self.ssts == before.ssts,
            self.config == before.config,
            self.mutable.wf(),
            !self.mutable.frozen(),
            self.mutable.log().spec_id() == before.mutable.log().spec_id(),
            self.mutable.log().records() == before.mutable.log().records().push(rec),
        ensures
            self.wf(),
            self.all_log() == before.all_log().push(rec),
    {
        before.lemma_all_log_split();
        self.lemma_all_log_split();
        assert(self.all_log() =~= before.all_log().push(rec));
    }

    /// Hands out the log bytes staged in every memtable since the last call,
    /// each batch with the id of the log file it belongs to, oldest first.
    pub fn flush_wals(&mut self) -> (writes: Vec<WalWrite>)
        requires
            old(self).wf(),
        ensures
            final(self).wf(),
            final(self).all_log() == old(self).all_log(),
            final(self).threshold() == old(self).threshold(),
            final(self).tables().len() == old(self).tables().len(),
            forall|a: int| #![auto]
                0 <= a < final(self).tables().len() ==> {
                    &&& final(self).tables()[a].log().pending() == Seq::<u8>::empty()
                    &&& final(self).tables()[a].log().contents() == old(self).tables()[a].log().contents()
                    &&& final(self).tables()[a].log().records() == old(self).tables()[a].log().records()
                    &&& final(self).tables()[a].log().spec_id() == old(self).tables()[a].log().spec_id()
                    &&& final(self).tables()[a].records() == old(self).tables()[a].records()
                },
            writes@.len() == old(self).tables().len(),
            forall|a: int| #![auto]
                0 <= a < writes@.len() ==> writes@[a].wal_id == old(self).tables()[a].log().spec_id()
                    && writes@[a].bytes@ == old(self).tables()[a].log().pending(),
    {
        let ghost before = *self;
        let mut writes: Vec<WalWrite> = Vec::new();
        let mut i: usize = 0;
        proof {
            assert forall|a: int| 0 <= a < self.immutable@.len() implies (
            #[trigger] self.immutable@[a]).wf() && self.immutable@[a].frozen() by {
                assert(self.frozen_tables()[a].wf());
            }
        }
        while i < self.immutable.len()
            invariant
                i <= self.immutable@.len(),
                self.immutable@.len() == before.immutable@.len(),
                self.mutable == before.mutable,
                self.ssts == before.ssts,
                self.config == before.config,
                before.wf(),
                writes@.len() == i,
                forall|a: int|
                    0 <= a < self.immutable@.len() ==> {
                        &&& (#[trigger] self.immutable@[a]).wf()
                        &&& self.immutable@[a].frozen()
                        &&& self.immutable@[a].log().contents() == before.immutable@[a].log().contents()
                        &&& self.immutable@[a].log().records() == before.immutable@[a].log().records()
                        &&& self.immutable@[a].log().spec_id() == before.immutable@[a].log().spec_id()
                        &&& self.immutable@[a].records() == before.immutable@[a].records()
                        &&& (a < i ==> self.immutable@[a].log().pending() == Seq::<u8>::empty())
                        &&& (i <= a ==> self.immutable@[a] == before.immutable@[a])
                    },
                forall|a: int|
                    0 <= a < i ==> (#[trigger] writes@[a]).wal_id == before.immutable@[a].log().spec_id()
                        && writes@[a].bytes@ == before.immutable@[a].log().pending(),
            decreases self.immutable@.len() - i,
        {
            let ghost prev = self.immutable@;
            proof {
                assert(self.immutable@[i as int].wf());
            }
            let mut t = self.immutable.remove(i);
            let bytes = t.flush_wal();
            let wal_id = t.wal_id();
            self.immutable.insert(i, t);
            let ghost wprev = writes@;
            writes.push(WalWrite { wal_id, bytes });
            proof {
                assert(self.immutable@ =~= prev.update(i as int, t));
                assert(writes@ =~= wprev.push(WalWrite { wal_id, bytes }));
            }
            i = i + 1;
        }
        let bytes = self.mutable.flush_wal();
        let wal_id = self.mutable.wal_id();
        writes.push(WalWrite { wal_id, bytes });
        proof {
            assert forall|a: int| 0 <= a < self.frozen_tables().len() implies (
            #[trigger] self.frozen_tables()[a]).wf() && self.frozen_tables()[a].frozen()
                && self.frozen_tables()[a].log().spec_id() < self.active().log().spec_id() by {
                assert(self.immutable@[a].wf());
                assert(before.frozen_tables()[a].log().spec_id() < before.active().log().spec_id());
            }
            assert forall|a: int| #![auto] 0 <= a < self.frozen_tables().len()
                implies self.frozen_tables()[a].log().records()
                == before.frozen_tables()[a].log().records() by {}
            lemma_concat_logs_same(self.frozen_tables(), before.frozen_tables());
            self.lemma_all_log_split();
            before.lemma_all_log_split();
            assert forall|a: int, b: int| 0 <= a < b < self.frozen_tables().len() implies (
            #[trigger] self.frozen_tables()[a]).log().spec_id() < (
            #[trigger] self.frozen_tables()[b]).log().spec_id() by {
                assert(before.frozen_tables()[a].log().spec_id()
                    < before.frozen_tables()[b].log().spec_id());
            }
        }
        writes
    }
}

/// An id for the new log that opening creates: the clock's reading `now`,
/// unless some file's id is not below it, in which case the one after the
/// largest file id. `None` when a file already has the largest id.
pub fn fresh_wal_id(now: u128, wal_files: &Vec<FileImage>, sst_files: &Vec<FileImage>) -> (r: Option<
    u128,
>)
    ensures
        r is None <==> (exists|a: int| 0 <= a < wal_files@.len() && #[trigger] wal_files@[a].id
            == u128::MAX) || (exists|a: int| 0 <= a < sst_files@.len() && #[trigger] sst_files@[a].id
            == u128::MAX),
        r matches Some(id) ==> {
            &&& id >= now
            &&& forall|a: int| 0 <= a < wal_files@.len() ==> #[trigger] wal_files@[a].id < id
            &&& forall|a: int| 0 <= a < sst_files@.len() ==> #[trigger] sst_files@[a].id < id
            &&& (id == now || (exists|a: int| 0 <= a < wal_files@.len() && #[trigger] wal_files@[a].id
                + 1 == id) || (exists|a: int|
                0 <= a < sst_files@.len() && #[trigger] sst_files@[a].id + 1 == id))
        },
{
    let mut id = now;
    let mut i: usize = 0;
    let mut grown = false;
    while i < wal_files.len()
        invariant
            i <= wal_files@.len(),
            id >= now,
            forall|a: int| 0 <= a < i ==> #[trigger] wal_files@[a].id < id,
            forall|a: int| 0 <= a < i ==> #[trigger] wal_files@[a].id != u128::MAX,
            grown ==> exists|a: int| 0 <= a < i && #[trigger] wal_files@[a].id + 1 == id,
            !grown ==> id == now,
        decreases wal_files@.len() - i,
    {
        let f = wal_files[i].id;
        if f == u128::MAX {
            return None;
        }
        if f >= id {
            id = f + 1;
            grown = true;
        }
        i = i + 1;
    }
    let mut j: usize = 0;
    while j < sst_files.len()
        invariant
            j <= sst_files@.len(),
            id >= now,
            forall|a: int| 0 <= a < wal_files@.len() ==> #[trigger] wal_files@[a].id < id,
            forall|a: int| 0 <= a < wal_files@.len() ==> #[trigger] wal_files@[a].id != u128::MAX,
            forall|a: int| 0 <= a < j ==> #[trigger] sst_files@[a].id < id,
            forall|a: int| 0 <= a < j ==> #[trigger] sst_files@[a].id != u128::MAX,
            id == now || (exists|a: int| 0 <= a < wal_files@.len() && #[trigger] wal_files@[a].id
                + 1 == id) || (exists|a: int| 0 <= a < j && #[trigger] sst_files@[a].id + 1 == id),
        decreases sst_files@.len() - j,
    {
        let f = sst_files[j].id;
        if f == u128::MAX {
            return None;
        }
        if f >= id {
            id = f + 1;
            assert(sst_files@[j as int].id + 1 == id);
        }
        j = j + 1;
    }
    Some(id)
}

/// Loads table files as runs, in ascending order of id.
fn load_runs(files: Vec<FileImage>) -> (r: Result<Vec<SortedRun>, StorageError>)
    ensures
        r is Ok <==> tables_load(sort_by_id(file_views(files@))),
        r is Err ==> (r matches Err(StorageError::CorruptTable)),
        r matches Ok(runs) ==> {
            &&& forall|a: int| 0 <= a < runs@.len() ==> (#[trigger] runs@[a]).wf()
            &&& forall|a: int, b: int|
                0 <= a < b < runs@.len() ==> (#[trigger] runs@[a]).spec_id() < (
                #[trigger] runs@[b]).spec_id()
            &&& concat_runs(runs@) == recovered_log(file_views(files@))
        },
{
    let sorted = sort_files(files);
    let ghost fs = file_views(sorted@);
    let mut rest = sorted;
    let mut runs: Vec<SortedRun> = Vec::new();
    let ghost mut taken: int = 0;
    proof {
        assert(fs.subrange(0, 0) =~= Seq::<(u128, Seq<u8>)>::empty());
        assert(concat_runs(runs@) =~= Seq::<Record>::empty());
    }
    while rest.len() > 0
        invariant
            0 <= taken <= fs.len(),
            fs == sort_by_id(file_views(files@)),
            runs@.len() == taken,
            file_views(rest@) == fs.subrange(taken, fs.len() as int),
            tables_load(fs.subrange(0, taken)),
            forall|a: int| 0 <= a < runs@.len() ==> (#[trigger] runs@[a]).wf(),
            forall|a: int| 0 <= a < runs@.len() ==> (#[trigger] runs@[a]).spec_id() == fs[a].0,
            forall|a: int, b: int|
                0 <= a < b < runs@.len() ==> (#[trigger] runs@[a]).spec_id() < (
                #[trigger] runs@[b]).spec_id(),
            concat_runs(runs@) == replay_log(fs.subrange(0, taken)),
        decreases rest@.len(),
    {
        proof {
            assert(file_views(rest@).len() == rest@.len());
            assert(file_views(rest@)[0] == rest@[0]@);
        }
        let ghost before_rest = rest@;
        let f = rest.remove(0);
        proof {
            assert(fs[taken] == f@);
            assert(rest@ =~= before_rest.subrange(1, before_rest.len() as int));
            assert(file_views(rest@) =~= file_views(before_rest).subrange(
                1,
                before_rest.len() as int,
            ));
        }
        if runs.len() > 0 && runs[runs.len() - 1].id() >= f.id {
            proof {
                assert(fs[taken - 1].0 >= fs[taken].0);
                assert(!tables_load(fs));
            }
            return Err(StorageError::CorruptTable);
        }
        let ghost fv = f@;
        match SortedRun::load(f) {
            Ok(run) => {
                let ghost before = runs@;
                runs.push(run);
                proof {
                    let pre = fs.subrange(0, taken + 1);
                    assert(pre.drop_last() =~= fs.subrange(0, taken));
                    assert(runs@.drop_last() =~= before);
                    assert(pre.last() == fv);
                    assert forall|a: int| 0 <= a < pre.len() implies crate::ds::sorted_by_key(
                        #[trigger] parse_all(pre[a].1),
                    ) by {
                        if a < taken {
                            assert(pre[a] == fs.subrange(0, taken)[a]);
                        }
                    }
                    assert forall|a: int, b: int| 0 <= a < b < pre.len() implies (
                    #[trigger] pre[a]).0 < (#[trigger] pre[b]).0 by {
                        if b < taken {
                            assert(pre[a] == fs.subrange(0, taken)[a]);
                            assert(pre[b] == fs.subrange(0, taken)[b]);
                        } else {
                            assert(runs@[a].spec_id() == fs[a].0);
                            if a < taken - 1 {
                                assert(runs@[a].spec_id() < runs@[taken - 1].spec_id());
                            }
                        }
                    }
                    taken = taken + 1;
                }
            },
            Err(_) => {
                proof {
                    assert(!crate::ds::sorted_by_key(parse_all(fs[taken].1)));
                    assert(!tables_load(fs));
                }
                return Err(StorageError::CorruptTable);
            },
        }
    }
    proof {
        assert(fs.subrange(0, taken) =~= fs);
    }
    Ok(runs)
}

/// Each table's log file: its id and what it holds once flushed.
pub open spec fn log_images(ts: Seq<MemTable>) -> Seq<(u128, Seq<u8>)> {
    ts.map_values(|t: MemTable| (t.log().spec_id(), t.log().contents()))
}

proof fn lemma_replay_images(ts: Seq<MemTable>)
    requires
        forall|a: int| 0 <= a < ts.len() ==> (#[trigger] ts[a]).wf(),
    ensures
        replay_log(log_images(ts)) == concat_logs(ts),
    decreases ts.len(),
{
    if ts.len() > 0 {
        assert(log_images(ts).drop_last() =~= log_images(ts.drop_last()));
        assert(ts.last() == ts[ts.len() - 1]);
        ts.last().lemma_log_replays();
        lemma_replay_images(ts.drop_last());
    }
}

proof fn lemma_replay_runs(rs: Seq<SortedRun>)
    requires
        forall|a: int| 0 <= a < rs.len() ==> (#[trigger] rs[a]).wf(),
    ensures
        replay_log(run_images(rs)) == concat_runs(rs),
    decreases rs.len(),
{
    if rs.len() > 0 {
        assert(run_images(rs).drop_last() =~= run_images(rs.drop_last()));
        assert(rs.last() == rs[rs.len() - 1]);
        rs.last().lemma_run_facts(Seq::empty());
        lemma_replay_runs(rs.drop_last());
    }
}

/// The engine's log files and table files each ascend strictly by id.
proof fn lemma_images_ascending(s: Storage)
    requires
        s.wf(),
    ensures
        ids_strictly_ascending(s.wal_images()),
        ids_strictly_ascending(s.sst_images()),
        forall|a: int| 0 <= a < s.tables().len() ==> (#[trigger] s.tables()[a]).wf(),
{
    let ts = s.tables();
    let imgs = s.wal_images();
    assert forall|a: int| 0 <= a < ts.len() implies (#[trigger] ts[a]).wf() by {
        if a < ts.len() - 1 {
            assert(ts[a] == s.frozen_tables()[a]);
        }
    }
    assert forall|a: int, b: int| 0 <= a < b < imgs.len() implies (#[trigger] imgs[a]).0 < (
    #[trigger] imgs[b]).0 by {
        assert(imgs[a].0 == ts[a].log().spec_id());
        assert(imgs[b].0 == ts[b].log().spec_id());
        if b < ts.len() - 1 {
            assert(ts[a] == s.frozen_tables()[a]);
            assert(ts[b] == s.frozen_tables()[b]);
        } else {
            assert(ts[a] == s.frozen_tables()[a]);
        }
    }
    let rs = s.runs();
    let simgs = s.sst_images();
    assert forall|a: int, b: int| 0 <= a < b < simgs.len() implies (#[trigger] simgs[a]).0 < (
    #[trigger] simgs[b]).0 by {
        assert(simgs[a].0 == rs[a].spec_id());
        assert(simgs[b].0 == rs[b].spec_id());
    }
}

/// Recovery equivalence: loading the engine's table files and replaying its
/// log files, as opening does, gives back every record the engine holds, in
/// order; an engine reopened over those files therefore answers `get` as
/// this one does, on every key.
pub proof fn lemma_recovery(s: Storage)
    requires
        s.wf(),
    ensures
        recovered_log(s.sst_images()) + recovered_log(s.wal_images()) == s.all_log(),
        forall|k: Seq<u8>| #[trigger]
            value_in(recovered_log(s.sst_images()) + recovered_log(s.wal_images()), k)
                == s.value_of(k),
{
    lemma_images_ascending(s);
    lemma_sort_sorted(s.wal_images());
    lemma_replay_images(s.tables());
    lemma_sort_sorted(s.sst_images());
    lemma_replay_runs(s.runs());
}

/// Recovery equivalence, in whatever order the directory lists the files:
/// opening over the engine's log and table files loads every table and gives
/// back every record the engine holds, in order, so the reopened engine
/// answers `get` as this one does, on every key.
pub proof fn lemma_reopen(
    s: Storage,
    wal_files: Seq<(u128, Seq<u8>)>,
    sst_files: Seq<(u128, Seq<u8>)>,
)
    requires
        s.wf(),
        wal_files.to_multiset() == s.wal_images().to_multiset(),
        sst_files.to_multiset() == s.sst_images().to_multiset(),
    ensures
        tables_load(sort_by_id(sst_files)),
        recovered_log(sst_files) + recovered_log(wal_files) == s.all_log(),
        forall|k: Seq<u8>| #[trigger]
            value_in(recovered_log(sst_files) + recovered_log(wal_files), k) == s.value_of(k),
{
    lemma_images_ascending(s);
    lemma_recovery(s);
    lemma_sort_by_id_facts(wal_files);
    lemma_sorted_unique(sort_by_id(wal_files), s.wal_images());
    lemma_sort_sorted(s.wal_images());
    lemma_sort_by_id_facts(sst_files);
    lemma_sorted_unique(sort_by_id(sst_files), s.sst_images());
    lemma_sort_sorted(s.sst_images());
    let simgs = s.sst_images();
    assert forall|a: int| 0 <= a < simgs.len() implies crate::ds::sorted_by_key(
        #[trigger] parse_all(simgs[a].1),
    ) by {
        assert(s.runs()[a].wf());
        s.runs()[a].lemma_run_facts(Seq::empty());
    }
}

/// The logs of tables are the first one's log, then the rest's.
proof fn lemma_concat_logs_front(ts: Seq<MemTable>)
    requires
        ts.len() > 0,
    ensures
        concat_logs(ts) == ts[0].log().records() + concat_logs(ts.drop_first()),
    decreases ts.len(),
{
    if ts.len() == 1 {
        assert(ts.drop_last() =~= Seq::<MemTable>::empty());
        assert(ts.drop_first() =~= Seq::<MemTable>::empty());
        assert(concat_logs(ts.drop_last()) =~= Seq::<Record>::empty());
        assert(ts.last() == ts[0]);
        assert(concat_logs(ts) =~= ts[0].log().records());
        assert(ts[0].log().records() + concat_logs(ts.drop_first()) =~= ts[0].log().records());
    } else {
        lemma_concat_logs_front(ts.drop_last());
        assert(ts.drop_last().drop_first() =~= ts.drop_first().drop_last());
        assert(ts.drop_first().last() == ts.last());
        assert(concat_logs(ts) =~= ts[0].log().records() + concat_logs(ts.drop_first()));
    }
}

/// Tables with the same logs, in the same order, give the same records.
proof fn lemma_concat_logs_same(a: Seq<MemTable>, b: Seq<MemTable>)
    requires
        a.len() == b.len(),
        forall|i: int| #![auto] 0 <= i < a.len() ==> a[i].log().records() == b[i].log().records(),
    ensures
        concat_logs(a) == concat_logs(b),
    decreases a.len(),
{
    if a.len() > 0 {
        lemma_concat_logs_same(a.drop_last(), b.drop_last());
    }
}

/// Read-your-writes: after a further run of writes, the value of a key is that
/// of the last write of it in the run, or its value before the run when the
/// run does not write it; a delete makes it absent.
pub proof fn lemma_read_your_writes(before: Seq<Record>, writes: Seq<Record>, k: Seq<u8>)
    ensures
        value_in(before + writes, k) == match latest(writes, k) {
            Some(w) => w.value,
            None => value_in(before, k),
        },
{
    lemma_latest_concat(before, writes, k);
}

/// After one more write, the written key shows the written value (none for a
/// delete) and every other key keeps its value.
pub proof fn lemma_write_then_read(before: Seq<Record>, w: Record, k: Seq<u8>)
    ensures
        value_in(before.push(w), k) == if k == w.key {
            w.value
        } else {
            value_in(before, k)
        },
{
    lemma_latest_push(before, w, k);
}

/// Tombstone masking: when the newest write of a key in the later part of a
/// log is a delete, the key has no value, whatever the earlier part holds.
pub proof fn lemma_tombstone_masks(older: Seq<Record>, newer: Seq<Record>, k: Seq<u8>)
    requires
        latest(newer, k) matches Some(r) && r.value is None,
    ensures
        value_in(older + newer, k) is None,
{
    lemma_latest_concat(older, newer, k);
}

} // verus!
