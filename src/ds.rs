//! The entry record shared by the log, the memtables and the sorted string tables.
use vstd::prelude::*;
use crate::keys::{key_lt, lemma_key_lt_irreflexive, lemma_key_lt_transitive};

verus! {

/// The mathematical content of one entry: a key, its value (absent for a
/// tombstone) and the time it was written.
pub struct Record {
    pub key: Seq<u8>,
    pub value: Option<Seq<u8>>,
    pub timestamp: u128,
}

/// The view of an optional byte vector.
pub open spec fn opt_view(v: Option<Vec<u8>>) -> Option<Seq<u8>> {
    match v {
        Some(b) => Some(b@),
        None => None,
    }
}

/// Copies a byte vector.
pub fn copy_bytes(v: &Vec<u8>) -> (r: Vec<u8>)
    ensures
        r@ == v@,
{
    let c = v.clone();
    assert(c@ =~= v@);
    c
}

/// Copies an optional byte vector, keeping its view.
pub fn copy_opt(v: &Option<Vec<u8>>) -> (r: Option<Vec<u8>>)
    ensures
        opt_view(r) == opt_view(*v),
{
    match v {
        Some(b) => Some(copy_bytes(b)),
        None => None,
    }
}

/// An entry as it is read back from a log or a table file.
pub struct TableEntry {
    pub key: Vec<u8>,
    pub value: Option<Vec<u8>>,
    pub timestamp: u128,
    pub deleted: bool,
}

impl TableEntry {
    /// A tombstone carries no value, and only a tombstone lacks one.
    pub open spec fn wf(&self) -> bool {
        self.deleted == self.value.is_none()
    }
}

impl View for TableEntry {
    type V = Record;

    open spec fn view(&self) -> Record {
        Record { key: self.key@, value: opt_view(self.value), timestamp: self.timestamp }
    }
}

impl Clone for TableEntry {
    fn clone(&self) -> (r: Self)
        ensures
            r@ == self@,
            r.deleted == self.deleted,
    {
        let key = self.key.clone();
        assert(key@ =~= self.key@);
        TableEntry {
            key,
            value: copy_opt(&self.value),
            timestamp: self.timestamp,
            deleted: self.deleted,
        }
    }
}

/// The records that a sequence of entries holds, in order.
pub open spec fn entry_records(es: Seq<TableEntry>) -> Seq<Record> {
    es.map_values(|e: TableEntry| e@)
}

/// The newest record for `k` in a log, where later records are newer.
pub open spec fn latest(log: Seq<Record>, k: Seq<u8>) -> Option<Record>
    decreases log.len(),
{
    if log.len() == 0 {
        None
    } else if log.last().key == k {
        Some(log.last())
    } else {
        latest(log.drop_last(), k)
    }
}

pub proof fn lemma_latest_push(log: Seq<Record>, r: Record, k: Seq<u8>)
    ensures
        latest(log.push(r), k) == if r.key == k {
            Some(r)
        } else {
            latest(log, k)
        },
{
    assert(log.push(r).drop_last() =~= log);
}

/// In two logs replayed one after the other, the second one's record wins.
pub proof fn lemma_latest_concat(a: Seq<Record>, b: Seq<Record>, k: Seq<u8>)
    ensures
        latest(a + b, k) == match latest(b, k) {
            Some(r) => Some(r),
            None => latest(a, k),
        },
    decreases b.len(),
{
    if b.len() == 0 {
        assert(a + b =~= a);
    } else {
        assert((a + b).drop_last() =~= a + b.drop_last());
        lemma_latest_concat(a, b.drop_last(), k);
    }
}

/// Records in strictly ascending key order; keys are therefore unique.
pub open spec fn sorted_by_key(rs: Seq<Record>) -> bool {
    forall|i: int, j: int| 0 <= i < j < rs.len() ==> key_lt(#[trigger] rs[i].key, #[trigger] rs[j].key)
}

/// The record for `k` in a key-sorted sequence, if there is one.
pub open spec fn find(rs: Seq<Record>, k: Seq<u8>) -> Option<Record> {
    if exists|i: int| 0 <= i < rs.len() && #[trigger] rs[i].key == k {
        Some(rs[choose|i: int| 0 <= i < rs.len() && #[trigger] rs[i].key == k])
    } else {
        None
    }
}

pub proof fn lemma_find_at(rs: Seq<Record>, i: int)
    requires
        sorted_by_key(rs),
        0 <= i < rs.len(),
    ensures
        find(rs, rs[i].key) == Some(rs[i]),
{
    let k = rs[i].key;
    assert(rs[i].key == k);
    let j = choose|j: int| 0 <= j < rs.len() && #[trigger] rs[j].key == k;
    lemma_key_lt_irreflexive(k);
    if j < i {
        assert(key_lt(rs[j].key, rs[i].key));
    } else if i < j {
        assert(key_lt(rs[i].key, rs[j].key));
    }
}

pub proof fn lemma_find_none(rs: Seq<Record>, k: Seq<u8>)
    requires
        forall|i: int| 0 <= i < rs.len() ==> #[trigger] rs[i].key != k,
    ensures
        find(rs, k) is None,
{
}

/// Replacing the record of a key keeps the order and changes only that key.
pub proof fn lemma_find_update(rs: Seq<Record>, i: int, r: Record, k: Seq<u8>)
    requires
        sorted_by_key(rs),
        0 <= i < rs.len(),
        r.key == rs[i].key,
    ensures
        sorted_by_key(rs.update(i, r)),
        find(rs.update(i, r), k) == if k == r.key {
            Some(r)
        } else {
            find(rs, k)
        },
{
    let t = rs.update(i, r);
    assert forall|a: int, b: int| 0 <= a < b < t.len() implies key_lt(
        #[trigger] t[a].key,
        #[trigger] t[b].key,
    ) by {
        assert(key_lt(rs[a].key, rs[b].key));
    }
    if k == r.key {
        lemma_find_at(t, i);
    } else if exists|j: int| 0 <= j < rs.len() && #[trigger] rs[j].key == k {
        let j = choose|j: int| 0 <= j < rs.len() && #[trigger] rs[j].key == k;
        lemma_find_at(rs, j);
        lemma_find_at(t, j);
    } else {
        assert forall|j: int| 0 <= j < t.len() implies #[trigger] t[j].key != k by {
            if j != i {
                assert(rs[j].key != k);
            }
        }
    }
}

/// Inserting a record for a new key at its place in the order keeps the
/// order and adds only that key.
pub proof fn lemma_find_insert(rs: Seq<Record>, i: int, r: Record, k: Seq<u8>)
    requires
        sorted_by_key(rs),
        0 <= i <= rs.len(),
        forall|j: int| 0 <= j < i ==> key_lt(#[trigger] rs[j].key, r.key),
        forall|j: int| i <= j < rs.len() ==> key_lt(r.key, #[trigger] rs[j].key),
    ensures
        sorted_by_key(rs.insert(i, r)),
        find(rs.insert(i, r), k) == if k == r.key {
            Some(r)
        } else {
            find(rs, k)
        },
{
    let t = rs.insert(i, r);
    assert forall|a: int, b: int| 0 <= a < b < t.len() implies key_lt(
        #[trigger] t[a].key,
        #[trigger] t[b].key,
    ) by {
        if b < i {
            assert(key_lt(rs[a].key, rs[b].key));
        } else if b == i {
        } else if a < i {
            assert(key_lt(rs[a].key, r.key));
            assert(key_lt(r.key, rs[b - 1].key));
            lemma_key_lt_transitive(rs[a].key, r.key, rs[b - 1].key);
        } else if a == i {
        } else {
            assert(key_lt(rs[a - 1].key, rs[b - 1].key));
        }
    }
    if k == r.key {
        lemma_find_at(t, i);
    } else if exists|j: int| 0 <= j < rs.len() && #[trigger] rs[j].key == k {
        let j = choose|j: int| 0 <= j < rs.len() && #[trigger] rs[j].key == k;
        lemma_find_at(rs, j);
        if j < i {
            assert(t[j] == rs[j]);
            lemma_find_at(t, j);
        } else {
            assert(t[j + 1] == rs[j]);
            lemma_find_at(t, j + 1);
        }
    } else {
        assert forall|j: int| 0 <= j < t.len() implies #[trigger] t[j].key != k by {
            if j < i {
                assert(rs[j].key != k);
            } else if j > i {
                assert(rs[j - 1].key != k);
            }
        }
    }
}

} // verus!
