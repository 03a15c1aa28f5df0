//! The write-ahead log of one memtable generation.
//!
//! The log stages the frames of its writes in memory; whoever owns the file
//! takes them with `flush` and appends them to `<id>.wal`.
use vstd::prelude::*;
use crate::codec::{
    decode_all, encode_delete, encode_set, encodable, frames, lemma_frames_push,
    lemma_parse_all_frames, lemma_pow256_widths, parse_all,
};
use crate::ds::{Record, TableEntry, entry_records};

verus! {

/// An entry read back from a log file.
pub type WalEntry = TableEntry;

pub struct Wal {
    id: u128,
    pending: Vec<u8>,
    flushed: Ghost<Seq<u8>>,
    log: Ghost<Seq<Record>>,
}

impl Wal {
    /// The bytes already handed out, followed by those still staged, are the
    /// frames of every record written, in order.
    pub closed spec fn wf(&self) -> bool {
        &&& self.flushed@ + self.pending@ == frames(self.log@)
        &&& forall|i: int| 0 <= i < self.log@.len() ==> encodable(#[trigger] self.log@[i])
    }

    /// Every record written to this log, oldest first.
    pub closed spec fn records(&self) -> Seq<Record> {
        self.log@
    }

    /// What the log file holds once everything staged has been flushed.
    pub closed spec fn contents(&self) -> Seq<u8> {
        self.flushed@ + self.pending@
    }

    /// The staged bytes that the next `flush` hands out.
    pub closed spec fn pending(&self) -> Seq<u8> {
        self.pending@
    }

    pub closed spec fn spec_id(&self) -> u128 {
        self.id
    }

    /// A new, empty log with the given file id.
    pub fn new(id: u128) -> (w: Wal)
        ensures
            w.wf(),
            w.spec_id() == id,
            w.records() == Seq::<Record>::empty(),
            w.contents() == Seq::<u8>::empty(),
            w.pending() == Seq::<u8>::empty(),
    {
        let w = Wal { id, pending: Vec::new(), flushed: Ghost(Seq::empty()), log: Ghost(Seq::empty()) };
        assert(w.flushed@ + w.pending@ =~= Seq::<u8>::empty());
        w
    }

    /// The id that names this log's file.
    pub fn id(&self) -> (r: u128)
        ensures
            r == self.spec_id(),
    {
        self.id
    }

    /// Appends the frame of a live entry.
    pub fn set(&mut self, key: &[u8], value: &[u8], timestamp: u128)
        requires
            old(self).wf(),
        ensures
            final(self).wf(),
            final(self).spec_id() == old(self).spec_id(),
            final(self).records() == old(self).records().push(
                Record { key: key@, value: Some(value@), timestamp },
            ),
            final(self).pending() == old(self).pending() + frames(
                seq![Record { key: key@, value: Some(value@), timestamp }],
            ),
            final(self).contents() == old(self).contents() + frames(
                seq![Record { key: key@, value: Some(value@), timestamp }],
            ),
    {
        let ghost r = Record { key: key@, value: Some(value@), timestamp };
        let ghost before = self.pending@;
        proof {
            lemma_pow256_widths();
            assert(key.len() <= u64::MAX && value.len() <= u64::MAX);
            lemma_frames_push(self.log@, r);
            lemma_frames_push(Seq::empty(), r);
            assert(Seq::<Record>::empty().push(r) =~= seq![r]);
            assert(frames(Seq::<Record>::empty()) =~= Seq::<u8>::empty());
        }
        encode_set(&mut self.pending, key, value, timestamp);
        self.log = Ghost(self.log@.push(r));
        assert(self.flushed@ + self.pending@ =~= frames(self.log@));
        assert(self.pending@ =~= before + frames(seq![r]));
        assert(self.flushed@ + self.pending@ =~= old(self).flushed@ + old(self).pending@ + frames(
            seq![r],
        ));
    }

    /// Appends the frame of a tombstone.
    pub fn delete(&mut self, key: &[u8], timestamp: u128)
        requires
            old(self).wf(),
        ensures
            final(self).wf(),
            final(self).spec_id() == old(self).spec_id(),
            final(self).records() == old(self).records().push(
                Record { key: key@, value: None, timestamp },
            ),
            final(self).pending() == old(self).pending() + frames(
                seq![Record { key: key@, value: None, timestamp }],
            ),
            final(self).contents() == old(self).contents() + frames(
                seq![Record { key: key@, value: None, timestamp }],
            ),
    {
        let ghost r = Record { key: key@, value: None, timestamp };
        let ghost before = self.pending@;
        proof {
            lemma_pow256_widths();
            assert(key.len() <= u64::MAX);
            lemma_frames_push(self.log@, r);
            lemma_frames_push(Seq::empty(), r);
            assert(Seq::<Record>::empty().push(r) =~= seq![r]);
            assert(frames(Seq::<Record>::empty()) =~= Seq::<u8>::empty());
        }
        encode_delete(&mut self.pending, key, timestamp);
        self.log = Ghost(self.log@.push(r));
        assert(self.flushed@ + self.pending@ =~= frames(self.log@));
        assert(self.pending@ =~= before + frames(seq![r]));
        assert(self.flushed@ + self.pending@ =~= old(self).flushed@ + old(self).pending@ + frames(
            seq![r],
        ));
    }

    /// Hands out the staged bytes, to be appended to the log file, and
    /// clears the stage.
    pub fn flush(&mut self) -> (bytes: Vec<u8>)
        requires
            old(self).wf(),
        ensures
            final(self).wf(),
            bytes@ == old(self).pending(),
            final(self).pending() == Seq::<u8>::empty(),
            final(self).contents() == old(self).contents(),
            final(self).records() == old(self).records(),
            final(self).spec_id() == old(self).spec_id(),
    {
        let bytes = self.pending.split_off(0);
        self.flushed = Ghost(self.flushed@ + bytes@);
        assert(self.flushed@ + self.pending@ =~= frames(self.log@));
        bytes
    }

    /// Reading the log file back gives every record written, in order.
    pub proof fn lemma_contents_replay(&self)
        requires
            self.wf(),
        ensures
            parse_all(self.contents()) == self.records(),
    {
        lemma_parse_all_frames(self.log@);
    }
}

/// The bytes of one log file, with the id that its name `<id>.wal` gives.
#[derive(Debug)]
pub struct FileImage {
    pub id: u128,
    pub bytes: Vec<u8>,
}

impl View for FileImage {
    type V = (u128, Seq<u8>);

    open spec fn view(&self) -> (u128, Seq<u8>) {
        (self.id, self.bytes@)
    }
}

impl Clone for FileImage {
    fn clone(&self) -> (r: Self)
        ensures
            r@ == self@,
    {
        FileImage { id: self.id, bytes: crate::ds::copy_bytes(&self.bytes) }
    }
}

pub open spec fn file_views(fs: Seq<FileImage>) -> Seq<(u128, Seq<u8>)> {
    fs.map_values(|f: FileImage| f@)
}

/// Inserts `f` into `sorted` after every file whose id is not larger.
pub open spec fn insert_by_id(sorted: Seq<(u128, Seq<u8>)>, f: (u128, Seq<u8>)) -> Seq<
    (u128, Seq<u8>),
>
    decreases sorted.len(),
{
    if sorted.len() == 0 || sorted.last().0 <= f.0 {
        sorted.push(f)
    } else {
        insert_by_id(sorted.drop_last(), f).push(sorted.last())
    }
}

/// Log files in ascending order of id; files with equal ids keep their order.
pub open spec fn sort_by_id(fs: Seq<(u128, Seq<u8>)>) -> Seq<(u128, Seq<u8>)>
    decreases fs.len(),
{
    if fs.len() == 0 {
        seq![]
    } else {
        insert_by_id(sort_by_id(fs.drop_last()), fs.last())
    }
}

/// The records of log files read one after the other.
pub open spec fn replay_log(fs: Seq<(u128, Seq<u8>)>) -> Seq<Record>
    decreases fs.len(),
{
    if fs.len() == 0 {
        seq![]
    } else {
        replay_log(fs.drop_last()) + parse_all(fs.last().1)
    }
}

/// The records that recovery replays from a directory's log files: file by
/// file in ascending order of id, each in the order it was written.
pub open spec fn recovered_log(fs: Seq<(u128, Seq<u8>)>) -> Seq<Record> {
    replay_log(sort_by_id(fs))
}

/// Reading the first `m` files gives a prefix of reading them all.
pub proof fn lemma_replay_prefix(fs: Seq<(u128, Seq<u8>)>, m: int)
    requires
        0 <= m <= fs.len(),
    ensures
        replay_log(fs.subrange(0, m)).len() <= replay_log(fs).len(),
        replay_log(fs).subrange(0, replay_log(fs.subrange(0, m)).len() as int) == replay_log(
            fs.subrange(0, m),
        ),
    decreases fs.len(),
{
    if m == fs.len() {
        assert(fs.subrange(0, m) =~= fs);
        assert(replay_log(fs).subrange(0, replay_log(fs).len() as int) =~= replay_log(fs));
    } else {
        assert(fs.drop_last().subrange(0, m) =~= fs.subrange(0, m));
        lemma_replay_prefix(fs.drop_last(), m);
        let p = replay_log(fs.subrange(0, m));
        assert(replay_log(fs).subrange(0, p.len() as int) =~= replay_log(fs.drop_last()).subrange(
            0,
            p.len() as int,
        ));
    }
}

/// Inserting at the place where every later file has a larger id and the
/// earlier one does not.
proof fn lemma_insert_by_id_at(sorted: Seq<(u128, Seq<u8>)>, f: (u128, Seq<u8>), p: int)
    requires
        0 <= p <= sorted.len(),
        forall|q: int| p <= q < sorted.len() ==> (#[trigger] sorted[q]).0 > f.0,
        p == 0 || sorted[p - 1].0 <= f.0,
    ensures
        insert_by_id(sorted, f) == sorted.insert(p, f),
    decreases sorted.len(),
{
    if sorted.len() == 0 {
        assert(sorted.insert(p, f) =~= sorted.push(f));
    } else if sorted.last().0 <= f.0 {
        assert(sorted.insert(p, f) =~= sorted.push(f));
    } else {
        lemma_insert_by_id_at(sorted.drop_last(), f, p);
        assert(sorted.insert(p, f) =~= sorted.drop_last().insert(p, f).push(sorted.last()));
    }
}

/// Sorts log files by ascending id, keeping the order of files with equal ids.
pub fn sort_files(files: Vec<FileImage>) -> (r: Vec<FileImage>)
    ensures
        file_views(r@) == sort_by_id(file_views(files@)),
{
    let ghost all = file_views(files@);
    let mut rest = files;
    let mut out: Vec<FileImage> = Vec::new();
    let ghost mut taken: int = 0;
    assert(all.subrange(0, 0) =~= Seq::<(u128, Seq<u8>)>::empty());
    assert(file_views(out@) =~= Seq::<(u128, Seq<u8>)>::empty());
    while rest.len() > 0
        invariant
            0 <= taken <= all.len(),
            file_views(rest@) == all.subrange(taken, all.len() as int),
            file_views(out@) == sort_by_id(all.subrange(0, taken)),
        decreases rest@.len(),
    {
        proof {
            assert(file_views(rest@).len() == rest@.len());
            assert(file_views(rest@)[0] == rest@[0]@);
        }
        let ghost before_rest = rest@;
        let f = rest.remove(0);
        let ghost sorted = file_views(out@);
        let mut p: usize = out.len();
        while p > 0 && out[p - 1].id > f.id
            invariant
                p <= out@.len(),
                sorted == file_views(out@),
                forall|q: int| p <= q < sorted.len() ==> (#[trigger] sorted[q]).0 > f.id,
            decreases p,
        {
            p = p - 1;
        }
        proof {
            lemma_insert_by_id_at(sorted, f@, p as int);
            let pre = all.subrange(0, taken + 1);
            assert(pre.drop_last() =~= all.subrange(0, taken));
            assert(pre.last() == all[taken]);
            assert(all[taken] == file_views(before_rest)[0]);
            assert(pre.last() == f@);
        }
        out.insert(p, f);
        proof {
            assert(file_views(out@) =~= sorted.insert(p as int, f@));
            taken = taken + 1;
            assert(rest@ =~= before_rest.subrange(1, before_rest.len() as int));
            assert(file_views(rest@) =~= file_views(before_rest).subrange(
                1,
                before_rest.len() as int,
            ));
            assert(file_views(rest@) =~= all.subrange(taken, all.len() as int));
        }
    }
    proof {
        assert(all.subrange(0, taken) =~= all);
    }
    out
}

/// Ids ascend, not necessarily strictly.
pub open spec fn ids_ascending(fs: Seq<(u128, Seq<u8>)>) -> bool {
    forall|a: int, b: int| 0 <= a < b < fs.len() ==> (#[trigger] fs[a]).0 <= (#[trigger] fs[b]).0
}

/// Ids ascend strictly.
pub open spec fn ids_strictly_ascending(fs: Seq<(u128, Seq<u8>)>) -> bool {
    forall|a: int, b: int| 0 <= a < b < fs.len() ==> (#[trigger] fs[a]).0 < (#[trigger] fs[b]).0
}

proof fn lemma_insert_by_id_facts(sorted: Seq<(u128, Seq<u8>)>, f: (u128, Seq<u8>))
    ensures
        insert_by_id(sorted, f).to_multiset() == sorted.to_multiset().insert(f),
        ids_ascending(sorted) ==> ids_ascending(insert_by_id(sorted, f)),
    decreases sorted.len(),
{
    broadcast use vstd::seq_lib::group_to_multiset_ensures;
    if sorted.len() == 0 || sorted.last().0 <= f.0 {
        if ids_ascending(sorted) {
            let r = sorted.push(f);
            assert forall|a: int, b: int| 0 <= a < b < r.len() implies (#[trigger] r[a]).0 <= (
            #[trigger] r[b]).0 by {
                if b == r.len() - 1 && a < sorted.len() - 1 {
                    assert(sorted[a].0 <= sorted[sorted.len() - 1].0);
                }
            }
        }
    } else {
        let init = sorted.drop_last();
        let last = sorted.last();
        assert(init.push(last) =~= sorted);
        lemma_insert_by_id_facts(init, f);
        let r = insert_by_id(init, f);
        assert(r.push(last).to_multiset() =~= sorted.to_multiset().insert(f));
        if ids_ascending(sorted) {
            assert forall|a: int, b: int| 0 <= a < b < init.len() implies (#[trigger] init[a]).0
                <= (#[trigger] init[b]).0 by {
                assert(sorted[a].0 <= sorted[b].0);
            }
            let t = r.push(last);
            assert forall|a: int, b: int| 0 <= a < b < t.len() implies (#[trigger] t[a]).0 <= (
            #[trigger] t[b]).0 by {
                if b == t.len() - 1 {
                    let x = r[a];
                    assert(r.contains(x));
                    assert(r.to_multiset().count(x) > 0);
                    if x != f {
                        assert(init.to_multiset().count(x) > 0);
                        assert(init.contains(x));
                        let i = choose|i: int| 0 <= i < init.len() && init[i] == x;
                        assert(sorted[i].0 <= sorted[sorted.len() - 1].0);
                    }
                } else {
                    assert(t[a] == r[a] && t[b] == r[b]);
                }
            }
        }
    }
}

/// Sorting keeps the files and puts them in ascending order of id.
pub proof fn lemma_sort_by_id_facts(fs: Seq<(u128, Seq<u8>)>)
    ensures
        sort_by_id(fs).to_multiset() == fs.to_multiset(),
        ids_ascending(sort_by_id(fs)),
    decreases fs.len(),
{
    broadcast use vstd::seq_lib::group_to_multiset_ensures;
    if fs.len() > 0 {
        lemma_sort_by_id_facts(fs.drop_last());
        lemma_insert_by_id_facts(sort_by_id(fs.drop_last()), fs.last());
        assert(fs.drop_last().push(fs.last()) =~= fs);
    }
}

/// Two arrangements of the same files, both in ascending order of id, one
/// strictly, are the same sequence.
pub proof fn lemma_sorted_unique(a: Seq<(u128, Seq<u8>)>, b: Seq<(u128, Seq<u8>)>)
    requires
        ids_ascending(a),
        ids_strictly_ascending(b),
        a.to_multiset() == b.to_multiset(),
    ensures
        a == b,
    decreases a.len(),
{
    broadcast use vstd::seq_lib::group_to_multiset_ensures;
    assert(a.len() == a.to_multiset().len());
    assert(b.len() == b.to_multiset().len());
    if a.len() == 0 {
        assert(a =~= b);
    } else {
        let n = a.len() as int;
        let x = a.last();
        let y = b.last();
        assert(a.contains(x));
        assert(a.to_multiset().count(x) > 0);
        assert(b.contains(x));
        assert(b.contains(y));
        assert(b.to_multiset().count(y) > 0);
        assert(a.contains(y));
        if x != y {
            let j = choose|j: int| 0 <= j < b.len() && b[j] == x;
            let i = choose|i: int| 0 <= i < a.len() && a[i] == y;
            assert(j != n - 1);
            assert(b[j].0 < b[n - 1].0);
            if i < n - 1 {
                assert(a[i].0 <= a[n - 1].0);
            }
        }
        assert(a.remove(n - 1) =~= a.drop_last());
        assert(b.remove(n - 1) =~= b.drop_last());
        assert(a.drop_last().to_multiset() == b.drop_last().to_multiset());
        assert forall|p: int, q: int| 0 <= p < q < a.drop_last().len() implies (
        #[trigger] a.drop_last()[p]).0 <= (#[trigger] a.drop_last()[q]).0 by {
            assert(a[p].0 <= a[q].0);
        }
        assert forall|p: int, q: int| 0 <= p < q < b.drop_last().len() implies (
        #[trigger] b.drop_last()[p]).0 < (#[trigger] b.drop_last()[q]).0 by {
            assert(b[p].0 < b[q].0);
        }
        lemma_sorted_unique(a.drop_last(), b.drop_last());
        assert(x == y);
        assert forall|i: int| 0 <= i < a.len() implies a[i] == b[i] by {
            if i < n - 1 {
                assert(a[i] == a.drop_last()[i]);
                assert(b[i] == b.drop_last()[i]);
            }
        }
        assert(a =~= b);
    }
}

/// Files already in strictly ascending order of id are left as they are.
pub proof fn lemma_sort_sorted(fs: Seq<(u128, Seq<u8>)>)
    requires
        forall|a: int, b: int| 0 <= a < b < fs.len() ==> (#[trigger] fs[a]).0 < (#[trigger] fs[b]).0,
    ensures
        sort_by_id(fs) == fs,
    decreases fs.len(),
{
    if fs.len() > 0 {
        let init = fs.drop_last();
        assert forall|a: int, b: int| 0 <= a < b < init.len() implies (#[trigger] init[a]).0 < (
        #[trigger] init[b]).0 by {
            assert(fs[a].0 < fs[b].0);
        }
        lemma_sort_sorted(init);
        if init.len() > 0 {
            assert(fs[init.len() - 1].0 < fs[fs.len() - 1].0);
        }
        assert(init.push(fs.last()) =~= fs);
    }
}

/// The entries of a log file's bytes, in the order they were written.
pub fn read_entries(bytes: &[u8]) -> (r: Vec<WalEntry>)
    ensures
        entry_records(r@) == parse_all(bytes@),
        forall|i: int| 0 <= i < r@.len() ==> (#[trigger] r@[i]).wf(),
{
    decode_all(bytes)
}

} // verus!
