//! The on-disk frame of one entry, shared by log files and table files.
//!
//! ```text
//! u64 key_len | u8 deleted | (u64 value_len)? | key | (value)? | u128 timestamp
//! ```
//! All integers are little-endian; the value length and the value are present
//! only when `deleted` is 0.
use vstd::prelude::*;
use crate::ds::{Record, TableEntry, entry_records};

verus! {

/// 256 to the power `n`.
pub open spec fn pow256(n: nat) -> nat
    decreases n,
{
    if n == 0 {
        1
    } else {
        256 * pow256((n - 1) as nat)
    }
}

/// The number that bytes `s` denote, least significant byte first.
pub open spec fn le_value(s: Seq<u8>) -> nat
    decreases s.len(),
{
    if s.len() == 0 {
        0
    } else {
        s[0] as nat + 256 * le_value(s.drop_first())
    }
}

/// The `n` low bytes of `x`, least significant first.
pub open spec fn le_bytes(x: nat, n: nat) -> Seq<u8>
    decreases n,
{
    if n == 0 {
        seq![]
    } else {
        seq![(x % 256) as u8] + le_bytes(x / 256, (n - 1) as nat)
    }
}

pub proof fn lemma_le_bytes_len(x: nat, n: nat)
    ensures
        le_bytes(x, n).len() == n,
    decreases n,
{
    if n > 0 {
        lemma_le_bytes_len(x / 256, (n - 1) as nat);
    }
}

pub proof fn lemma_le_value_bound(s: Seq<u8>)
    ensures
        le_value(s) < pow256(s.len()),
    decreases s.len(),
{
    if s.len() > 0 {
        let t = s.drop_first();
        lemma_le_value_bound(t);
        let v = le_value(t);
        let p = pow256(t.len());
        let b = s[0] as nat;
        assert(b + 256 * v < 256 * p) by (nonlinear_arith)
            requires
                v < p,
                b < 256,
        ;
    }
}

pub proof fn lemma_pow256_monotone(a: nat, b: nat)
    requires
        a <= b,
    ensures
        pow256(a) <= pow256(b),
    decreases b,
{
    if a < b {
        lemma_pow256_monotone(a, (b - 1) as nat);
    }
}

/// Eight bytes hold any `u64` and sixteen any `u128`.
pub proof fn lemma_pow256_widths()
    ensures
        pow256(8) == 0x1_0000_0000_0000_0000,
        pow256(15) == 0x100_0000_0000_0000_0000_0000_0000_0000,
        pow256(16) == 0x1_0000_0000_0000_0000_0000_0000_0000_0000,
{
    reveal_with_fuel(pow256, 17);
}

/// Writing `x` in `n` bytes and reading them back gives `x`, when `x` fits.
pub proof fn lemma_le_round_trip(x: nat, n: nat)
    requires
        x < pow256(n),
    ensures
        le_value(le_bytes(x, n)) == x,
    decreases n,
{
    if n > 0 {
        let b = le_bytes(x, n);
        let p = pow256((n - 1) as nat);
        assert(b.drop_first() =~= le_bytes(x / 256, (n - 1) as nat));
        assert(x / 256 < p) by (nonlinear_arith)
            requires
                x < 256 * p,
        ;
        lemma_le_round_trip(x / 256, (n - 1) as nat);
    }
}

/// Appends the `n` low bytes of `x`, least significant first.
pub fn write_le(out: &mut Vec<u8>, x: u128, n: usize)
    ensures
        final(out)@ == old(out)@ + le_bytes(x as nat, n as nat),
{
    let mut v: u128 = x;
    let mut i: usize = 0;
    while i < n
        invariant
            0 <= i <= n,
            out@ + le_bytes(v as nat, (n - i) as nat) == old(out)@ + le_bytes(x as nat, n as nat),
        decreases n - i,
    {
        let ghost before = out@;
        let ghost rest = le_bytes(v as nat, (n - i) as nat);
        out.push((v % 256) as u8);
        v = v / 256;
        i = i + 1;
        assert(before + rest =~= out@ + le_bytes(v as nat, (n - i) as nat));
    }
    assert(out@ + le_bytes(v as nat, 0) =~= out@);
}

/// Reads `n` bytes at `pos` as a little-endian number.
pub fn read_le(bytes: &[u8], pos: usize, n: usize) -> (r: u128)
    requires
        n <= 16,
        pos + n <= bytes@.len(),
    ensures
        r as nat == le_value(bytes@.subrange(pos as int, pos + n)),
{
    let mut acc: u128 = 0;
    let mut i: usize = n;
    let len = bytes.len();
    proof {
        assert(bytes@.subrange(pos + n, pos + n).len() == 0);
    }
    while i > 0
        invariant
            0 <= i <= n,
            n <= 16,
            len == bytes@.len(),
            pos + n <= bytes@.len(),
            acc as nat == le_value(bytes@.subrange(pos + i, pos + n)),
        decreases i,
    {
        i = i - 1;
        let b = bytes[pos + i];
        proof {
            let s = bytes@.subrange(pos + i, pos + n);
            assert(s.drop_first() =~= bytes@.subrange(pos + i + 1, pos + n));
            lemma_le_value_bound(s.drop_first());
            lemma_pow256_monotone((n - i - 1) as nat, 15);
            lemma_pow256_widths();
            assert(s[0] == b);
        }
        acc = acc * 256 + b as u128;
    }
    acc
}

/// Appends every byte of `src`.
pub fn append_bytes(out: &mut Vec<u8>, src: &[u8])
    ensures
        final(out)@ == old(out)@ + src@,
{
    let mut i: usize = 0;
    while i < src.len()
        invariant
            i <= src@.len(),
            out@ == old(out)@ + src@.subrange(0, i as int),
        decreases src@.len() - i,
    {
        out.push(src[i]);
        i = i + 1;
        assert(src@.subrange(0, i as int) =~= src@.subrange(0, i - 1).push(src@[i - 1]));
        assert(out@ =~= old(out)@ + src@.subrange(0, i as int));
    }
    assert(src@.subrange(0, src@.len() as int) =~= src@);
}

/// Copies bytes `from..to` of `src` into a new vector.
pub fn copy_range(src: &[u8], from: usize, to: usize) -> (r: Vec<u8>)
    requires
        from <= to <= src@.len(),
    ensures
        r@ == src@.subrange(from as int, to as int),
{
    let mut r: Vec<u8> = Vec::new();
    let mut i: usize = from;
    while i < to
        invariant
            from <= i <= to <= src@.len(),
            r@ == src@.subrange(from as int, i as int),
        decreases to - i,
    {
        r.push(src[i]);
        i = i + 1;
        assert(r@ =~= src@.subrange(from as int, i as int));
    }
    r
}

/// The frame of one record.
pub open spec fn frame(r: Record) -> Seq<u8> {
    match r.value {
        Some(v) => le_bytes(r.key.len(), 8) + seq![0u8] + le_bytes(v.len(), 8) + r.key + v
            + le_bytes(r.timestamp as nat, 16),
        None => le_bytes(r.key.len(), 8) + seq![1u8] + r.key + le_bytes(r.timestamp as nat, 16),
    }
}

/// The frames of records, one after another.
pub open spec fn frames(rs: Seq<Record>) -> Seq<u8>
    decreases rs.len(),
{
    if rs.len() == 0 {
        seq![]
    } else {
        frames(rs.drop_last()) + frame(rs.last())
    }
}

/// A record whose lengths fit the frame's 64-bit length fields.
pub open spec fn encodable(r: Record) -> bool {
    &&& r.key.len() < pow256(8)
    &&& match r.value {
        Some(v) => v.len() < pow256(8),
        None => true,
    }
}

/// The first frame of `s`, with the number of bytes it takes; `None` when `s`
/// ends before a whole frame. A nonzero `deleted` byte marks a tombstone.
pub open spec fn parse_frame(s: Seq<u8>) -> Option<(Record, nat)> {
    if s.len() < 9 {
        None
    } else {
        let klen = le_value(s.subrange(0, 8)) as int;
        if s[8] == 0 {
            if s.len() < 17 {
                None
            } else {
                let vlen = le_value(s.subrange(9, 17)) as int;
                let end = 17 + klen + vlen + 16;
                if s.len() < end {
                    None
                } else {
                    Some(
                        (
                            Record {
                                key: s.subrange(17, 17 + klen),
                                value: Some(s.subrange(17 + klen, 17 + klen + vlen)),
                                timestamp: le_value(s.subrange(end - 16, end)) as u128,
                            },
                            end as nat,
                        ),
                    )
                }
            }
        } else {
            let end = 9 + klen + 16;
            if s.len() < end {
                None
            } else {
                Some(
                    (
                        Record {
                            key: s.subrange(9, 9 + klen),
                            value: None,
                            timestamp: le_value(s.subrange(end - 16, end)) as u128,
                        },
                        end as nat,
                    ),
                )
            }
        }
    }
}

/// The records of the whole frames at the start of `s`; reading stops at the
/// first frame that `s` holds only in part.
pub open spec fn parse_all(s: Seq<u8>) -> Seq<Record>
    decreases s.len(),
{
    match parse_frame(s) {
        Some((r, n)) => if 0 < n <= s.len() {
            seq![r] + parse_all(s.subrange(n as int, s.len() as int))
        } else {
            seq![]
        },
        None => seq![],
    }
}

pub proof fn lemma_parse_frame_len(s: Seq<u8>)
    ensures
        parse_frame(s) matches Some((r, n)) ==> 25 <= n <= s.len(),
{
}

pub proof fn lemma_frame_len(r: Record)
    ensures
        frame(r).len() == match r.value {
            Some(v) => 33 + r.key.len() + v.len(),
            None => 25 + r.key.len(),
        },
{
    lemma_le_bytes_len(r.key.len(), 8);
    lemma_le_bytes_len(r.timestamp as nat, 16);
    if let Some(v) = r.value {
        lemma_le_bytes_len(v.len(), 8);
    }
}

/// A frame followed by anything reads back as its record.
pub proof fn lemma_parse_frame(r: Record, rest: Seq<u8>)
    requires
        encodable(r),
    ensures
        parse_frame(frame(r) + rest) == Some((r, frame(r).len())),
{
    let s = frame(r) + rest;
    let k = r.key;
    let kl = k.len() as int;
    let lk = le_bytes(k.len(), 8);
    let lt = le_bytes(r.timestamp as nat, 16);
    lemma_le_bytes_len(k.len(), 8);
    lemma_le_bytes_len(r.timestamp as nat, 16);
    lemma_frame_len(r);
    lemma_le_round_trip(k.len(), 8);
    lemma_pow256_widths();
    lemma_le_round_trip(r.timestamp as nat, 16);
    assert(s.subrange(0, 8) =~= lk);
    match r.value {
        Some(v) => {
            let vl = v.len() as int;
            let lv = le_bytes(v.len(), 8);
            lemma_le_bytes_len(v.len(), 8);
            lemma_le_round_trip(v.len(), 8);
            assert(s[8] == 0);
            assert(s.subrange(9, 17) =~= lv);
            assert(s.subrange(17, 17 + kl) =~= k);
            assert(s.subrange(17 + kl, 17 + kl + vl) =~= v);
            assert(s.subrange(17 + kl + vl, 33 + kl + vl) =~= lt);
        },
        None => {
            assert(s[8] == 1);
            assert(s.subrange(9, 9 + kl) =~= k);
            assert(s.subrange(9 + kl, 25 + kl) =~= lt);
        },
    }
}

pub proof fn lemma_frames_push(rs: Seq<Record>, r: Record)
    ensures
        frames(rs.push(r)) == frames(rs) + frame(r),
{
    assert(rs.push(r).drop_last() =~= rs);
}

/// The frames of a sequence are its first frame followed by the frames of the rest.
pub proof fn lemma_frames_front(rs: Seq<Record>)
    requires
        rs.len() > 0,
    ensures
        frames(rs) == frame(rs[0]) + frames(rs.drop_first()),
    decreases rs.len(),
{
    if rs.len() == 1 {
        assert(rs.drop_last().len() == 0);
        assert(rs.drop_first().len() == 0);
        assert(frames(rs.drop_last()) =~= seq![]);
        assert(rs.last() == rs[0]);
        assert(frames(rs) =~= frame(rs[0]));
        assert(frame(rs[0]) + frames(rs.drop_first()) =~= frame(rs[0]));
    } else {
        lemma_frames_front(rs.drop_last());
        assert(rs.drop_last()[0] == rs[0]);
        assert(rs.drop_last().drop_first() =~= rs.drop_first().drop_last());
        assert(rs.drop_first().last() == rs.last());
        assert(frames(rs) =~= frame(rs[0]) + frames(rs.drop_first()));
    }
}

/// Reading back the frames of encodable records gives those records.
pub proof fn lemma_parse_all_frames(rs: Seq<Record>)
    requires
        forall|i: int| 0 <= i < rs.len() ==> encodable(#[trigger] rs[i]),
    ensures
        parse_all(frames(rs)) == rs,
    decreases rs.len(),
{
    if rs.len() == 0 {
        assert(parse_frame(frames(rs)) is None);
    } else {
        let s = frames(rs);
        lemma_frames_front(rs);
        lemma_parse_frame(rs[0], frames(rs.drop_first()));
        let n = frame(rs[0]).len();
        lemma_frame_len(rs[0]);
        assert(s.subrange(n as int, s.len() as int) =~= frames(rs.drop_first()));
        assert forall|i: int| 0 <= i < rs.drop_first().len() implies encodable(
            #[trigger] rs.drop_first()[i],
        ) by {
            assert(rs.drop_first()[i] == rs[i + 1]);
        }
        lemma_parse_all_frames(rs.drop_first());
        assert(seq![rs[0]] + rs.drop_first() =~= rs);
    }
}

/// Error of reading one frame.
#[derive(PartialEq, Eq, Structural, Clone, Copy, Debug)]
pub enum FrameError {
    /// The bytes end inside the frame.
    CorruptFrame,
}

/// Appends the frame of a live entry.
pub fn encode_set(out: &mut Vec<u8>, key: &[u8], value: &[u8], timestamp: u128)
    ensures
        final(out)@ == old(out)@ + frame(
            Record { key: key@, value: Some(value@), timestamp },
        ),
{
    let ghost start = out@;
    write_le(out, key.len() as u128, 8);
    out.push(0u8);
    write_le(out, value.len() as u128, 8);
    append_bytes(out, key);
    append_bytes(out, value);
    write_le(out, timestamp, 16);
    assert(out@ =~= start + frame(Record { key: key@, value: Some(value@), timestamp }));
}

/// Appends the frame of a tombstone.
pub fn encode_delete(out: &mut Vec<u8>, key: &[u8], timestamp: u128)
    ensures
        final(out)@ == old(out)@ + frame(Record { key: key@, value: None, timestamp }),
{
    let ghost start = out@;
    write_le(out, key.len() as u128, 8);
    out.push(1u8);
    append_bytes(out, key);
    write_le(out, timestamp, 16);
    assert(out@ =~= start + frame(Record { key: key@, value: None, timestamp }));
}

/// Appends the frame of an entry: live when it holds a value, a tombstone when not.
pub fn encode_entry(out: &mut Vec<u8>, entry: &TableEntry)
    ensures
        final(out)@ == old(out)@ + frame(entry@),
{
    match &entry.value {
        Some(v) => encode_set(out, entry.key.as_slice(), v.as_slice(), entry.timestamp),
        None => encode_delete(out, entry.key.as_slice(), entry.timestamp),
    }
}

/// The frames of every entry, in order.
pub fn encode_all(entries: &Vec<TableEntry>) -> (r: Vec<u8>)
    ensures
        r@ == frames(entry_records(entries@)),
{
    let mut out: Vec<u8> = Vec::new();
    let mut i: usize = 0;
    assert(entry_records(entries@.subrange(0, 0)) =~= Seq::<Record>::empty());
    while i < entries.len()
        invariant
            i <= entries@.len(),
            out@ == frames(entry_records(entries@.subrange(0, i as int))),
        decreases entries@.len() - i,
    {
        encode_entry(&mut out, &entries[i]);
        proof {
            let done = entry_records(entries@.subrange(0, i as int));
            assert(entry_records(entries@.subrange(0, i + 1)) =~= done.push(entries@[i as int]@));
            lemma_frames_push(done, entries@[i as int]@);
        }
        i = i + 1;
    }
    assert(entries@.subrange(0, entries@.len() as int) =~= entries@);
    out
}

/// Reads the frame that starts at `pos`, returning its entry and the position
/// after it.
pub fn decode_frame(bytes: &[u8], pos: usize) -> (r: Result<(TableEntry, usize), FrameError>)
    requires
        pos <= bytes@.len(),
    ensures
        match parse_frame(bytes@.subrange(pos as int, bytes@.len() as int)) {
            Some((rec, n)) => r matches Ok((e, next)) && e@ == rec && e.wf() && next == pos + n,
            None => r == Err::<(TableEntry, usize), FrameError>(FrameError::CorruptFrame),
        },
{
    let ghost s = bytes@.subrange(pos as int, bytes@.len() as int);
    let rem = bytes.len() - pos;
    if rem < 9 {
        return Err(FrameError::CorruptFrame);
    }
    let klen = read_le(bytes, pos, 8);
    proof {
        assert(bytes@.subrange(pos as int, pos + 8) =~= s.subrange(0, 8));
    }
    let deleted = bytes[pos + 8] != 0;
    if !deleted {
        if rem < 17 {
            return Err(FrameError::CorruptFrame);
        }
        let vlen = read_le(bytes, pos + 9, 8);
        proof {
            assert(bytes@.subrange(pos + 9, pos + 17) =~= s.subrange(9, 17));
        }
        if klen > (rem - 17) as u128 || vlen > (rem - 17) as u128 - klen || 16 > (rem - 17) as u128
            - klen - vlen {
            return Err(FrameError::CorruptFrame);
        }
        let kl = klen as usize;
        let vl = vlen as usize;
        let key = copy_range(bytes, pos + 17, pos + 17 + kl);
        let value = copy_range(bytes, pos + 17 + kl, pos + 17 + kl + vl);
        let ts = read_le(bytes, pos + 17 + kl + vl, 16);
        proof {
            assert(key@ =~= s.subrange(17, 17 + kl));
            assert(value@ =~= s.subrange(17 + kl, 17 + kl + vl));
            assert(bytes@.subrange(pos + 17 + kl + vl, pos + 33 + kl + vl) =~= s.subrange(
                17 + kl + vl,
                33 + kl + vl,
            ));
        }
        Ok((TableEntry { key, value: Some(value), timestamp: ts, deleted: false }, pos + 33 + kl + vl))
    } else {
        if klen > (rem - 9) as u128 || 16 > (rem - 9) as u128 - klen {
            return Err(FrameError::CorruptFrame);
        }
        let kl = klen as usize;
        let key = copy_range(bytes, pos + 9, pos + 9 + kl);
        let ts = read_le(bytes, pos + 9 + kl, 16);
        proof {
            assert(key@ =~= s.subrange(9, 9 + kl));
            assert(bytes@.subrange(pos + 9 + kl, pos + 25 + kl) =~= s.subrange(9 + kl, 25 + kl));
        }
        Ok((TableEntry { key, value: None, timestamp: ts, deleted: true }, pos + 25 + kl))
    }
}

/// Reads every whole frame of `bytes`, in order; a frame cut short at the end
/// (a write interrupted by a crash) ends the stream.
pub fn decode_all(bytes: &[u8]) -> (r: Vec<TableEntry>)
    ensures
        entry_records(r@) == parse_all(bytes@),
        forall|i: int| 0 <= i < r@.len() ==> (#[trigger] r@[i]).wf(),
{
    let mut out: Vec<TableEntry> = Vec::new();
    let mut pos: usize = 0;
    assert(bytes@.subrange(0, bytes@.len() as int) =~= bytes@);
    loop
        invariant
            pos <= bytes@.len(),
            entry_records(out@) + parse_all(bytes@.subrange(pos as int, bytes@.len() as int))
                == parse_all(bytes@),
            forall|i: int| 0 <= i < out@.len() ==> (#[trigger] out@[i]).wf(),
        ensures
            entry_records(out@) == parse_all(bytes@),
            forall|i: int| 0 <= i < out@.len() ==> (#[trigger] out@[i]).wf(),
        decreases bytes@.len() - pos,
    {
        let ghost s = bytes@.subrange(pos as int, bytes@.len() as int);
        match decode_frame(bytes, pos) {
            Ok((e, next)) => {
                proof {
                    lemma_parse_frame_len(s);
                    let n = (next - pos) as nat;
                    assert(s.subrange(n as int, s.len() as int) =~= bytes@.subrange(
                        next as int,
                        bytes@.len() as int,
                    ));
                    assert(entry_records(out@.push(e)) =~= entry_records(out@).push(e@));
                }
                let ghost old_out = out@;
                out.push(e);
                pos = next;
                proof {
                    assert(entry_records(old_out) + parse_all(s) =~= entry_records(out@)
                        + parse_all(bytes@.subrange(pos as int, bytes@.len() as int)));
                }
            },
            Err(_) => {
                assert(parse_all(s) =~= seq![]);
                assert(entry_records(out@) + parse_all(s) =~= entry_records(out@));
                break ;
            },
        }
    }
    out
}

} // verus!
