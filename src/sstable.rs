//! Sorted string tables: immutable, key-sorted segments flushed from
//! memtables, and the compaction that merges two of them.
use vstd::prelude::*;
use crate::codec::{decode_all, encode_all, encode_delete, encode_set, encodable, frames, parse_all};
use crate::wal::FileImage;
use crate::ds::{Record, TableEntry, entry_records, find, latest, lemma_find_at, lemma_find_insert, lemma_find_none, sorted_by_key};
use crate::keys::{KeyOrder, compare_keys, key_lt, lemma_key_lt_irreflexive, lemma_key_lt_transitive};
use crate::wal::Wal;

verus! {

/// The record for `k` when a newer table is laid over an older one: the newer
/// table's record if it has one, else the older one's.
pub open spec fn newer_first(old: Seq<Record>, new: Seq<Record>, k: Seq<u8>) -> Option<Record> {
    match find(new, k) {
        Some(r) => Some(r),
        None => find(old, k),
    }
}

/// Appending a record whose key follows every key keeps the order and adds
/// only that key.
pub proof fn lemma_find_push(rs: Seq<Record>, r: Record, k: Seq<u8>)
    requires
        sorted_by_key(rs),
        forall|a: int| 0 <= a < rs.len() ==> key_lt(#[trigger] rs[a].key, r.key),
    ensures
        sorted_by_key(rs.push(r)),
        find(rs.push(r), k) == if k == r.key {
            Some(r)
        } else {
            find(rs, k)
        },
{
    assert(rs.insert(rs.len() as int, r) =~= rs.push(r));
    lemma_find_insert(rs, rs.len() as int, r, k);
}

proof fn lemma_sorted_prefix(rs: Seq<Record>, i: int)
    requires
        sorted_by_key(rs),
        0 <= i <= rs.len(),
    ensures
        sorted_by_key(rs.subrange(0, i)),
        forall|a: int| 0 <= a < i ==> key_lt(#[trigger] rs.subrange(0, i)[a].key, rs[i].key) || i
            == rs.len(),
{
    let p = rs.subrange(0, i);
    assert forall|a: int, b: int| 0 <= a < b < p.len() implies key_lt(
        #[trigger] p[a].key,
        #[trigger] p[b].key,
    ) by {
        assert(key_lt(rs[a].key, rs[b].key));
    }
    assert forall|a: int| 0 <= a < i implies key_lt(#[trigger] p[a].key, rs[i].key) || i
        == rs.len() by {
        if i < rs.len() {
            assert(key_lt(rs[a].key, rs[i].key));
        }
    }
}

/// What holds after merging `old[..i]` and `new[..j]` into `m`.
pub open spec fn merge_inv(o: Seq<Record>, n: Seq<Record>, m: Seq<Record>, i: int, j: int) -> bool {
    &&& 0 <= i <= o.len()
    &&& 0 <= j <= n.len()
    &&& sorted_by_key(m)
    &&& forall|k: Seq<u8>| #[trigger]
        find(m, k) == newer_first(o.subrange(0, i), n.subrange(0, j), k)
    &&& forall|a: int, b: int|
        0 <= a < m.len() && i <= b < o.len() ==> key_lt(#[trigger] m[a].key, #[trigger] o[b].key)
    &&& forall|a: int, b: int|
        0 <= a < m.len() && j <= b < n.len() ==> key_lt(#[trigger] m[a].key, #[trigger] n[b].key)
}

/// A key that the merged output lacks is in neither consumed prefix.
proof fn lemma_absent_from_prefixes(
    o: Seq<Record>,
    n: Seq<Record>,
    m: Seq<Record>,
    i: int,
    j: int,
    k: Seq<u8>,
)
    requires
        merge_inv(o, n, m, i, j),
        forall|a: int| 0 <= a < m.len() ==> key_lt(#[trigger] m[a].key, k),
    ensures
        find(n.subrange(0, j), k) is None,
        find(o.subrange(0, i), k) is None,
{
    lemma_key_lt_irreflexive(k);
    assert forall|a: int| 0 <= a < m.len() implies #[trigger] m[a].key != k by {
        assert(key_lt(m[a].key, k));
    }
    assert(find(m, k) is None);
}

proof fn lemma_merge_take_old(o: Seq<Record>, n: Seq<Record>, m: Seq<Record>, i: int, j: int)
    requires
        merge_inv(o, n, m, i, j),
        sorted_by_key(o),
        sorted_by_key(n),
        i < o.len(),
        j == n.len() || key_lt(o[i].key, n[j].key),
    ensures
        merge_inv(o, n, m.push(o[i]), i + 1, j),
{
    let r = o[i];
    let op = o.subrange(0, i);
    let np = n.subrange(0, j);
    let m2 = m.push(r);
    assert forall|a: int| 0 <= a < m.len() implies key_lt(#[trigger] m[a].key, r.key) by {
        assert(key_lt(m[a].key, o[i].key));
    }
    lemma_absent_from_prefixes(o, n, m, i, j, r.key);
    lemma_sorted_prefix(o, i);
    assert(o.subrange(0, i + 1) =~= op.push(r));
    assert forall|k: Seq<u8>| #[trigger]
        find(m2, k) == newer_first(o.subrange(0, i + 1), np, k) by {
        lemma_find_push(m, r, k);
        lemma_find_push(op, r, k);
    }
    lemma_find_push(m, r, r.key);
    assert forall|a: int, b: int| 0 <= a < m2.len() && i + 1 <= b < o.len() implies key_lt(
        #[trigger] m2[a].key,
        #[trigger] o[b].key,
    ) by {
        if a == m.len() {
            assert(key_lt(o[i].key, o[b].key));
        } else {
            assert(m2[a] == m[a]);
        }
    }
    assert forall|a: int, b: int| 0 <= a < m2.len() && j <= b < n.len() implies key_lt(
        #[trigger] m2[a].key,
        #[trigger] n[b].key,
    ) by {
        if a == m.len() {
            if b > j {
                assert(key_lt(n[j].key, n[b].key));
                lemma_key_lt_transitive(r.key, n[j].key, n[b].key);
            }
        } else {
            assert(m2[a] == m[a]);
        }
    }
}

proof fn lemma_merge_take_new(o: Seq<Record>, n: Seq<Record>, m: Seq<Record>, i: int, j: int)
    requires
        merge_inv(o, n, m, i, j),
        sorted_by_key(o),
        sorted_by_key(n),
        j < n.len(),
        i == o.len() || key_lt(n[j].key, o[i].key),
    ensures
        merge_inv(o, n, m.push(n[j]), i, j + 1),
{
    let r = n[j];
    let op = o.subrange(0, i);
    let np = n.subrange(0, j);
    let m2 = m.push(r);
    assert forall|a: int| 0 <= a < m.len() implies key_lt(#[trigger] m[a].key, r.key) by {
        assert(key_lt(m[a].key, n[j].key));
    }
    lemma_sorted_prefix(n, j);
    assert(n.subrange(0, j + 1) =~= np.push(r));
    assert forall|k: Seq<u8>| #[trigger]
        find(m2, k) == newer_first(op, n.subrange(0, j + 1), k) by {
        lemma_find_push(m, r, k);
        lemma_find_push(np, r, k);
    }
    lemma_find_push(m, r, r.key);
    assert forall|a: int, b: int| 0 <= a < m2.len() && i <= b < o.len() implies key_lt(
        #[trigger] m2[a].key,
        #[trigger] o[b].key,
    ) by {
        if a == m.len() {
            if b > i {
                assert(key_lt(o[i].key, o[b].key));
                lemma_key_lt_transitive(r.key, o[i].key, o[b].key);
            }
        } else {
            assert(m2[a] == m[a]);
        }
    }
    assert forall|a: int, b: int| 0 <= a < m2.len() && j + 1 <= b < n.len() implies key_lt(
        #[trigger] m2[a].key,
        #[trigger] n[b].key,
    ) by {
        if a == m.len() {
            assert(key_lt(n[j].key, n[b].key));
        } else {
            assert(m2[a] == m[a]);
        }
    }
}

proof fn lemma_merge_take_both(o: Seq<Record>, n: Seq<Record>, m: Seq<Record>, i: int, j: int)
    requires
        merge_inv(o, n, m, i, j),
        sorted_by_key(o),
        sorted_by_key(n),
        i < o.len(),
        j < n.len(),
        o[i].key == n[j].key,
    ensures
        merge_inv(o, n, m.push(n[j]), i + 1, j + 1),
{
    let r = n[j];
    let op = o.subrange(0, i);
    let np = n.subrange(0, j);
    let m2 = m.push(r);
    assert forall|a: int| 0 <= a < m.len() implies key_lt(#[trigger] m[a].key, r.key) by {
        assert(key_lt(m[a].key, n[j].key));
    }
    lemma_sorted_prefix(o, i);
    lemma_sorted_prefix(n, j);
    assert(o.subrange(0, i + 1) =~= op.push(o[i]));
    assert(n.subrange(0, j + 1) =~= np.push(r));
    assert forall|a: int| 0 <= a < op.len() implies key_lt(#[trigger] op[a].key, o[i].key) by {}
    assert forall|k: Seq<u8>| #[trigger]
        find(m2, k) == newer_first(o.subrange(0, i + 1), n.subrange(0, j + 1), k) by {
        lemma_find_push(m, r, k);
        lemma_find_push(np, r, k);
        lemma_find_push(op, o[i], k);
    }
    lemma_find_push(m, r, r.key);
    assert forall|a: int, b: int| 0 <= a < m2.len() && i + 1 <= b < o.len() implies key_lt(
        #[trigger] m2[a].key,
        #[trigger] o[b].key,
    ) by {
        if a == m.len() {
            assert(key_lt(o[i].key, o[b].key));
        } else {
            assert(m2[a] == m[a]);
        }
    }
    assert forall|a: int, b: int| 0 <= a < m2.len() && j + 1 <= b < n.len() implies key_lt(
        #[trigger] m2[a].key,
        #[trigger] n[b].key,
    ) by {
        if a == m.len() {
            assert(key_lt(n[j].key, n[b].key));
        } else {
            assert(m2[a] == m[a]);
        }
    }
}

/// The record that `find` returns is one of the sequence's.
proof fn lemma_find_member(rs: Seq<Record>, k: Seq<u8>)
    ensures
        find(rs, k) matches Some(r) ==> rs.contains(r) && r.key == k,
{
    if find(rs, k) is Some {
        let i = choose|i: int| 0 <= i < rs.len() && #[trigger] rs[i].key == k;
        assert(rs[i] == find(rs, k)->0);
    }
}

/// Merge correctness for disjoint inputs: when no key is in both runs, a
/// merge as `compaction` returns it, strictly ascending by key and with the
/// newer run's record for each key, holds exactly the records of both runs:
/// it is their key-sorted concatenation.
pub proof fn lemma_merge_disjoint(old: Seq<Record>, new: Seq<Record>, merged: Seq<Record>)
    requires
        sorted_by_key(old),
        sorted_by_key(new),
        forall|a: int, b: int| 0 <= a < old.len() && 0 <= b < new.len() ==> #[trigger] old[a].key
            != #[trigger] new[b].key,
        sorted_by_key(merged),
        forall|k: Seq<u8>| #[trigger] find(merged, k) == newer_first(old, new, k),
    ensures
        forall|r: Record| #[trigger] merged.contains(r) <==> (old + new).contains(r),
{
    assert forall|r: Record| #[trigger] merged.contains(r) <==> (old + new).contains(r) by {
        if merged.contains(r) {
            let i = choose|i: int| 0 <= i < merged.len() && merged[i] == r;
            lemma_find_at(merged, i);
            lemma_find_member(new, r.key);
            lemma_find_member(old, r.key);
            if new.contains(r) {
                let j = choose|j: int| 0 <= j < new.len() && new[j] == r;
                assert((old + new)[old.len() + j] == r);
            } else {
                let j = choose|j: int| 0 <= j < old.len() && old[j] == r;
                assert((old + new)[j] == r);
            }
        }
        if (old + new).contains(r) {
            let j = choose|j: int| 0 <= j < (old + new).len() && (old + new)[j] == r;
            if j < old.len() {
                assert(old[j] == r);
                lemma_find_at(old, j);
                assert forall|b: int| 0 <= b < new.len() implies #[trigger] new[b].key != r.key by {
                    assert(old[j].key != new[b].key);
                }
                lemma_find_none(new, r.key);
            } else {
                assert(new[j - old.len()] == r);
                lemma_find_at(new, j - old.len());
            }
            lemma_find_member(merged, r.key);
        }
    }
}

/// An append-only table file named `<id>.sst`; like a log, it stages the
/// frames written to it until they are flushed.
pub struct SortedStringTable {
    stream: Wal,
}

impl SortedStringTable {
    pub closed spec fn wf(&self) -> bool {
        self.stream.wf()
    }

    /// Every record written to the table, in order.
    pub closed spec fn records(&self) -> Seq<Record> {
        self.stream.records()
    }

    /// The staged bytes that the next `flush` hands out.
    pub closed spec fn pending(&self) -> Seq<u8> {
        self.stream.pending()
    }

    /// What the table file holds once everything staged has been flushed.
    pub closed spec fn contents(&self) -> Seq<u8> {
        self.stream.contents()
    }

    pub closed spec fn spec_id(&self) -> u128 {
        self.stream.spec_id()
    }

    /// A new, empty table with the given file id.
    pub fn new(id: u128) -> (t: Self)
        ensures
            t.wf(),
            t.spec_id() == id,
            t.records() == Seq::<Record>::empty(),
            t.pending() == Seq::<u8>::empty(),
    {
        SortedStringTable { stream: Wal::new(id) }
    }

    /// The id that names the table's file.
    pub fn id(&self) -> (r: u128)
        ensures
            r == self.spec_id(),
    {
        self.stream.id()
    }

    fn set(&mut self, key: &[u8], value: &[u8], timestamp: u128)
        requires
            old(self).wf(),
        ensures
            final(self).wf(),
            final(self).spec_id() == old(self).spec_id(),
            final(self).records() == old(self).records().push(
                Record { key: key@, value: Some(value@), timestamp },
            ),
            final(self).pending() == old(self).pending() + frames(
                seq![Record { key: key@, value: Some(value@), timestamp }],
            ),
    {
        self.stream.set(key, value, timestamp);
    }

    fn delete(&mut self, key: &[u8], timestamp: u128)
        requires
            old(self).wf(),
        ensures
            final(self).wf(),
            final(self).spec_id() == old(self).spec_id(),
            final(self).records() == old(self).records().push(
                Record { key: key@, value: None, timestamp },
            ),
            final(self).pending() == old(self).pending() + frames(
                seq![Record { key: key@, value: None, timestamp }],
            ),
    {
        self.stream.delete(key, timestamp);
    }

    /// Appends the frames of `entries`, which are expected in key order.
    pub fn write(&mut self, entries: Vec<TableEntry>)
        requires
            old(self).wf(),
        ensures
            final(self).wf(),
            final(self).spec_id() == old(self).spec_id(),
            final(self).records() == old(self).records() + entry_records(entries@),
            final(self).pending() == old(self).pending() + frames(entry_records(entries@)),
    {
        let mut i: usize = 0;
        while i < entries.len()
            invariant
                self.wf(),
                i <= entries@.len(),
                self.spec_id() == old(self).spec_id(),
                self.records() == old(self).records() + entry_records(entries@.subrange(0, i as int)),
                self.pending() == old(self).pending() + frames(
                    entry_records(entries@.subrange(0, i as int)),
                ),
            decreases entries@.len() - i,
        {
            let ghost done = entry_records(entries@.subrange(0, i as int));
            let ghost before = self.pending();
            let e = &entries[i];
            match &e.value {
                Some(v) => self.set(e.key.as_slice(), v.as_slice(), e.timestamp),
                None => self.delete(e.key.as_slice(), e.timestamp),
            }
            proof {
                let r = e@;
                assert(entry_records(entries@.subrange(0, i + 1)) =~= done.push(r));
                crate::codec::lemma_frames_push(done, r);
                crate::codec::lemma_frames_push(Seq::empty(), r);
                assert(Seq::<Record>::empty().push(r) =~= seq![r]);
                assert(frames(Seq::<Record>::empty()) =~= Seq::<u8>::empty());
                assert(frames(seq![r]) =~= crate::codec::frame(r));
                assert(self.pending() =~= old(self).pending() + frames(done.push(r)));
                assert(self.records() =~= old(self).records() + done.push(r));
            }
            i = i + 1;
        }
        assert(entries@.subrange(0, entries@.len() as int) =~= entries@);
    }

    /// Hands out the staged bytes, to be appended to the table file.
    pub fn flush(&mut self) -> (bytes: Vec<u8>)
        requires
            old(self).wf(),
        ensures
            final(self).wf(),
            bytes@ == old(self).pending(),
            final(self).pending() == Seq::<u8>::empty(),
            final(self).contents() == old(self).contents(),
            final(self).records() == old(self).records(),
            final(self).spec_id() == old(self).spec_id(),
    {
        self.stream.flush()
    }

    /// Merges two key-sorted runs of entries, `new` being the younger. Where
    /// both hold a key, the younger entry is kept and the older one dropped;
    /// tombstones are kept.
    pub fn compaction(old: Vec<TableEntry>, new: Vec<TableEntry>) -> (merged: Vec<TableEntry>)
        requires
            sorted_by_key(entry_records(old@)),
            sorted_by_key(entry_records(new@)),
            forall|i: int| 0 <= i < old@.len() ==> (#[trigger] old@[i]).wf(),
            forall|i: int| 0 <= i < new@.len() ==> (#[trigger] new@[i]).wf(),
        ensures
            sorted_by_key(entry_records(merged@)),
            forall|i: int| 0 <= i < merged@.len() ==> (#[trigger] merged@[i]).wf(),
            forall|k: Seq<u8>| #[trigger]
                find(entry_records(merged@), k) == newer_first(
                    entry_records(old@),
                    entry_records(new@),
                    k,
                ),
    {
        let ghost o = entry_records(old@);
        let ghost n = entry_records(new@);
        let mut merged: Vec<TableEntry> = Vec::new();
        let mut i: usize = 0;
        let mut j: usize = 0;
        proof {
            assert(o.subrange(0, 0) =~= Seq::<Record>::empty());
            assert(n.subrange(0, 0) =~= Seq::<Record>::empty());
            assert(entry_records(merged@) =~= Seq::<Record>::empty());
        }
        while i < old.len() || j < new.len()
            invariant
                o == entry_records(old@),
                n == entry_records(new@),
                sorted_by_key(o),
                sorted_by_key(n),
                merge_inv(o, n, entry_records(merged@), i as int, j as int),
                forall|a: int| 0 <= a < old@.len() ==> (#[trigger] old@[a]).wf(),
                forall|a: int| 0 <= a < new@.len() ==> (#[trigger] new@[a]).wf(),
                forall|a: int| 0 <= a < merged@.len() ==> (#[trigger] merged@[a]).wf(),
            decreases old@.len() + new@.len() - i - j,
        {
            let ghost m = entry_records(merged@);
            let order = if i < old.len() && j < new.len() {
                compare_keys(old[i].key.as_slice(), new[j].key.as_slice())
            } else if i < old.len() {
                KeyOrder::Less
            } else {
                KeyOrder::Greater
            };
            match order {
                KeyOrder::Less => {
                    let e = old[i].clone();
                    proof {
                        assert(o[i as int] == old@[i as int]@);
                        if j < new.len() {
                            assert(n[j as int] == new@[j as int]@);
                        }
                        lemma_merge_take_old(o, n, m, i as int, j as int);
                    }
                    merged.push(e);
                    i = i + 1;
                },
                KeyOrder::Greater => {
                    let e = new[j].clone();
                    proof {
                        assert(n[j as int] == new@[j as int]@);
                        if i < old.len() {
                            assert(o[i as int] == old@[i as int]@);
                        }
                        lemma_merge_take_new(o, n, m, i as int, j as int);
                    }
                    merged.push(e);
                    j = j + 1;
                },
                KeyOrder::Equal => {
                    let e = new[j].clone();
                    proof {
                        assert(n[j as int] == new@[j as int]@);
                        assert(o[i as int] == old@[i as int]@);
                        lemma_merge_take_both(o, n, m, i as int, j as int);
                    }
                    merged.push(e);
                    i = i + 1;
                    j = j + 1;
                },
            }
            assert(entry_records(merged@) =~= m.push(merged@.last()@));
        }
        proof {
            assert(o.subrange(0, o.len() as int) =~= o);
            assert(n.subrange(0, n.len() as int) =~= n);
        }
        merged
    }
}

/// In a key-sorted sequence, the newest record of a key is its only one.
pub proof fn lemma_latest_sorted(rs: Seq<Record>, k: Seq<u8>)
    requires
        sorted_by_key(rs),
    ensures
        latest(rs, k) == find(rs, k),
    decreases rs.len(),
{
    if rs.len() > 0 {
        let init = rs.drop_last();
        assert forall|a: int, b: int| 0 <= a < b < init.len() implies key_lt(
            #[trigger] init[a].key,
            #[trigger] init[b].key,
        ) by {
            assert(key_lt(rs[a].key, rs[b].key));
        }
        lemma_latest_sorted(init, k);
        assert forall|a: int| 0 <= a < init.len() implies key_lt(#[trigger] init[a].key, rs.last().key) by {
            assert(key_lt(rs[a].key, rs[rs.len() - 1].key));
        }
        lemma_find_push(init, rs.last(), k);
        assert(init.push(rs.last()) =~= rs);
    }
}

#[derive(PartialEq, Eq, Structural, Clone, Copy, Debug)]
pub enum SstError {
    /// A table file's entries are not in strictly ascending key order.
    Unsorted,
}

/// Whether the keys of `entries` ascend strictly.
pub fn is_sorted(entries: &Vec<TableEntry>) -> (r: bool)
    ensures
        r == sorted_by_key(entry_records(entries@)),
{
    let ghost rs = entry_records(entries@);
    if entries.len() == 0 {
        return true;
    }
    let mut i: usize = 1;
    while i < entries.len()
        invariant
            1 <= i <= entries@.len(),
            rs == entry_records(entries@),
            forall|a: int, b: int| 0 <= a < b < i ==> key_lt(#[trigger] rs[a].key, #[trigger] rs[b].key),
        decreases entries@.len() - i,
    {
        if compare_keys(entries[i - 1].key.as_slice(), entries[i].key.as_slice()) != KeyOrder::Less {
            assert(!key_lt(rs[i - 1].key, rs[i as int].key));
            return false;
        }
        assert forall|a: int, b: int| 0 <= a < b < i + 1 implies key_lt(
            #[trigger] rs[a].key,
            #[trigger] rs[b].key,
        ) by {
            if b == i && a < i - 1 {
                lemma_key_lt_transitive(rs[a].key, rs[i - 1].key, rs[b].key);
            }
        }
        i = i + 1;
    }
    true
}

/// A table file loaded for reads: its entries in strictly ascending key order.
pub struct SortedRun {
    id: u128,
    entries: Vec<TableEntry>,
    contents: Ghost<Seq<u8>>,
}

impl SortedRun {
    pub closed spec fn records(&self) -> Seq<Record> {
        entry_records(self.entries@)
    }

    pub closed spec fn spec_id(&self) -> u128 {
        self.id
    }

    /// The bytes of the run's table file.
    pub closed spec fn contents(&self) -> Seq<u8> {
        self.contents@
    }

    /// Keys ascend strictly, every entry is well formed, and the table file
    /// reads back as the run's records.
    pub closed spec fn wf(&self) -> bool {
        &&& sorted_by_key(self.records())
        &&& forall|i: int| 0 <= i < self.entries@.len() ==> (#[trigger] self.entries@[i]).wf()
        &&& parse_all(self.contents@) == self.records()
    }

    /// Loads a table file; fails when its keys do not ascend strictly.
    pub fn load(file: FileImage) -> (r: Result<SortedRun, SstError>)
        ensures
            r is Ok <==> sorted_by_key(parse_all(file.bytes@)),
            r is Err ==> r == Err::<SortedRun, SstError>(SstError::Unsorted),
            r matches Ok(run) ==> run.wf() && run.spec_id() == file.id && run.contents()
                == file.bytes@ && run.records() == parse_all(file.bytes@),
    {
        let entries = decode_all(file.bytes.as_slice());
        if !is_sorted(&entries) {
            return Err(SstError::Unsorted);
        }
        Ok(SortedRun { id: file.id, entries, contents: Ghost(file.bytes@) })
    }

    /// A run of `entries`, already in strictly ascending key order, whose
    /// table file is to hold their frames; returns the run and those bytes.
    pub fn from_entries(id: u128, entries: Vec<TableEntry>) -> (r: (SortedRun, Vec<u8>))
        requires
            sorted_by_key(entry_records(entries@)),
            forall|i: int| 0 <= i < entries@.len() ==> (#[trigger] entries@[i]).wf(),
        ensures
            r.0.wf(),
            r.0.spec_id() == id,
            r.0.records() == entry_records(entries@),
            r.0.contents() == r.1@,
            r.1@ == frames(entry_records(entries@)),
    {
        let bytes = encode_all(&entries);
        proof {
            let rs = entry_records(entries@);
            crate::codec::lemma_pow256_widths();
            assert forall|i: int| 0 <= i < rs.len() implies encodable(#[trigger] rs[i]) by {
                let e = entries@[i];
                assert(e.key@.len() == e.key.len());
                if let Some(v) = e.value {
                    assert(v@.len() == v.len());
                }
            }
            crate::codec::lemma_parse_all_frames(rs);
        }
        (SortedRun { id, entries, contents: Ghost(bytes@) }, bytes)
    }

    pub fn id(&self) -> (r: u128)
        ensures
            r == self.spec_id(),
    {
        self.id
    }

    /// A run holds one record per key, so a key's newest record is its only
    /// one; and its table file reads back as its records.
    pub proof fn lemma_run_facts(&self, k: Seq<u8>)
        requires
            self.wf(),
        ensures
            latest(self.records(), k) == find(self.records(), k),
            parse_all(self.contents()) == self.records(),
            sorted_by_key(self.records()),
    {
        lemma_latest_sorted(self.records(), k);
    }

    /// The run's entry for `key`, if it has one (a tombstone included).
    pub fn get(&self, key: &[u8]) -> (r: Option<&TableEntry>)
        requires
            self.wf(),
        ensures
            match r {
                Some(e) => find(self.records(), key@) == Some(e@) && e.wf(),
                None => find(self.records(), key@) is None,
            },
    {
        let ghost rs = self.records();
        let mut lo: usize = 0;
        let mut hi: usize = self.entries.len();
        while lo < hi
            invariant
                lo <= hi <= self.entries@.len(),
                self.wf(),
                rs == self.records(),
                sorted_by_key(rs),
                forall|j: int| 0 <= j < lo ==> key_lt(#[trigger] rs[j].key, key@),
                forall|j: int| hi <= j < rs.len() ==> key_lt(key@, #[trigger] rs[j].key),
            decreases hi - lo,
        {
            let mid = lo + (hi - lo) / 2;
            match compare_keys(self.entries[mid].key.as_slice(), key) {
                KeyOrder::Equal => {
                    proof {
                        lemma_find_at(rs, mid as int);
                        assert(self.entries@[mid as int].wf());
                    }
                    return Some(&self.entries[mid]);
                },
                KeyOrder::Less => {
                    assert forall|j: int| 0 <= j < mid + 1 implies key_lt(#[trigger] rs[j].key, key@) by {
                        if j < mid {
                            lemma_key_lt_transitive(rs[j].key, rs[mid as int].key, key@);
                        }
                    }
                    lo = mid + 1;
                },
                KeyOrder::Greater => {
                    assert forall|j: int| mid <= j < rs.len() implies key_lt(key@, #[trigger] rs[j].key) by {
                        if mid < j && j < hi {
                            lemma_key_lt_transitive(key@, rs[mid as int].key, rs[j].key);
                        }
                    }
                    hi = mid;
                },
            }
        }
        proof {
            assert forall|j: int| 0 <= j < rs.len() implies #[trigger] rs[j].key != key@ by {
                lemma_key_lt_irreflexive(key@);
                if j < lo {
                    assert(key_lt(rs[j].key, key@));
                } else {
                    assert(key_lt(key@, rs[j].key));
                }
            }
            lemma_find_none(rs, key@);
        }
        None
    }
}

/// The entries of a table file's bytes, in the order they were written.
pub fn read_table(bytes: &[u8]) -> (r: Vec<TableEntry>)
    ensures
        entry_records(r@) == parse_all(bytes@),
        forall|i: int| 0 <= i < r@.len() ==> (#[trigger] r@[i]).wf(),
{
    decode_all(bytes)
}

} // verus!
