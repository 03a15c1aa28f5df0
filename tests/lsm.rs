use lsmtree::codec::{decode_all, decode_frame, encode_delete, encode_entry, encode_set, FrameError};
use lsmtree::ds::TableEntry;
use lsmtree::memtable::{MemTable, MemTableError, META_SIZE};
use lsmtree::sstable::{read_table, SortedStringTable};
use lsmtree::storage::{fresh_wal_id, Storage, StorageConfig, StorageError};
use lsmtree::sstable::SortedRun;
use lsmtree::wal::{read_entries, sort_files, Wal, FileImage};

fn config(threshold_bytes: i64) -> StorageConfig {
    StorageConfig { threshold_bytes, dir: String::from("unused") }
}

/// Appends the engine's staged log bytes to the in-memory directory.
fn sync(storage: &mut Storage, disk: &mut Vec<FileImage>) {
    for w in storage.flush_wals() {
        match disk.iter_mut().find(|f| f.id == w.wal_id) {
            Some(f) => f.bytes.extend_from_slice(&w.bytes),
            None => disk.push(FileImage { id: w.wal_id, bytes: w.bytes }),
        }
    }
}

/// Closes the engine and opens a new one over the same directory, as the
/// application does: replay, write the new log, unlink the replayed ones.
fn reopen(storage: Storage, disk: &mut Vec<FileImage>, new_id: u128, threshold: i64) -> Storage {
    let mut storage = storage;
    sync(&mut storage, disk);
    drop(storage);
    let mut reopened = Storage::new(config(threshold), new_id, disk.clone(), vec![]).expect("recovery");
    disk.clear();
    sync(&mut reopened, disk);
    reopened
}

fn entry(key: &str, value: Option<&str>, timestamp: u128) -> TableEntry {
    TableEntry {
        key: key.as_bytes().to_vec(),
        value: value.map(|v| v.as_bytes().to_vec()),
        timestamp,
        deleted: value.is_none(),
    }
}

fn not_found(r: Result<Vec<u8>, StorageError>) -> bool {
    matches!(r, Err(StorageError::NotFound(_)))
}

#[test]
fn box_test() {
    let mut test = Box::new(1);
    let test2 = &mut test;
    **test2 = 3;
    println!(">>>> {:.?}", test);
    assert_eq!(*test, 3);
}

#[test]
fn compaction_test() {
    let merged = SortedStringTable::compaction(vec![], vec![]);
    assert!(merged.is_empty());
}

#[test]
fn compaction_keeps_newer_value() {
    let old = vec![entry("a", Some("1"), 1), entry("b", Some("2"), 1)];
    let new = vec![entry("b", Some("3"), 2), entry("c", Some("4"), 2)];
    let merged = SortedStringTable::compaction(old, new);
    let got: Vec<(String, Option<String>, u128)> = merged
        .iter()
        .map(|e| {
            (
                String::from_utf8(e.key.clone()).unwrap(),
                e.value.as_ref().map(|v| String::from_utf8(v.clone()).unwrap()),
                e.timestamp,
            )
        })
        .collect();
    assert_eq!(
        got,
        vec![
            ("a".to_string(), Some("1".to_string()), 1),
            ("b".to_string(), Some("3".to_string()), 2),
            ("c".to_string(), Some("4".to_string()), 2),
        ]
    );
}

#[test]
fn compaction_disjoint_is_sorted_concatenation() {
    let old = vec![entry("a", Some("1"), 1), entry("c", Some("3"), 1), entry("e", Some("5"), 1)];
    let new = vec![entry("b", Some("2"), 2), entry("d", None, 2)];
    let merged = SortedStringTable::compaction(old, new);
    let keys: Vec<Vec<u8>> = merged.iter().map(|e| e.key.clone()).collect();
    assert_eq!(keys, vec![b"a".to_vec(), b"b".to_vec(), b"c".to_vec(), b"d".to_vec(), b"e".to_vec()]);
    assert!(merged[3].deleted && merged[3].value.is_none());
}

#[test]
fn compaction_keeps_newer_tombstone_and_drains_tails() {
    let old = vec![entry("a", Some("1"), 1), entry("x", Some("9"), 1), entry("y", Some("8"), 1)];
    let new = vec![entry("a", None, 5)];
    let merged = SortedStringTable::compaction(old, new);
    assert_eq!(merged.len(), 3);
    assert!(merged[0].deleted);
    assert_eq!(merged[0].timestamp, 5);
    assert_eq!(merged[2].key, b"y".to_vec());
    let merged = SortedStringTable::compaction(vec![], vec![entry("q", Some("1"), 1)]);
    assert_eq!(merged.len(), 1);
}

#[test]
fn frame_bytes_and_round_trip() {
    let mut out = Vec::new();
    encode_set(&mut out, b"ab", b"xyz", 7);
    let mut expected = Vec::new();
    expected.extend_from_slice(&2u64.to_le_bytes());
    expected.push(0);
    expected.extend_from_slice(&3u64.to_le_bytes());
    expected.extend_from_slice(b"ab");
    expected.extend_from_slice(b"xyz");
    expected.extend_from_slice(&7u128.to_le_bytes());
    assert_eq!(out, expected);
    encode_delete(&mut out, b"ab", 8);
    assert_eq!(out.len(), expected.len() + 8 + 1 + 2 + 16);
    let entries = decode_all(&out);
    assert_eq!(entries.len(), 2);
    assert_eq!(entries[0].value, Some(b"xyz".to_vec()));
    assert!(!entries[0].deleted);
    assert!(entries[1].deleted && entries[1].value.is_none());
    assert_eq!(entries[1].timestamp, 8);
    let (first, next) = decode_frame(&out, 0).unwrap();
    assert_eq!(first.key, b"ab".to_vec());
    assert_eq!(next, expected.len());
}

#[test]
fn truncated_tail_ends_the_stream() {
    let mut out = Vec::new();
    encode_entry(&mut out, &entry("k", Some("v"), 1));
    encode_entry(&mut out, &entry("k2", Some("v2"), 2));
    let cut = out.len() - 5;
    let entries = decode_all(&out[..cut]);
    assert_eq!(entries.len(), 1);
    assert_eq!(entries[0].key, b"k".to_vec());
    let first_len = 8 + 1 + 8 + 1 + 1 + 16;
    assert!(matches!(decode_frame(&out[..cut], first_len), Err(FrameError::CorruptFrame)));
    assert!(decode_all(&[]).is_empty());
}

#[test]
fn wal_stages_frames_until_flush() {
    let mut wal = Wal::new(42);
    assert_eq!(wal.id(), 42);
    wal.set(b"k", b"v", 1);
    wal.delete(b"k", 2);
    let bytes = wal.flush();
    assert!(wal.flush().is_empty());
    let entries = read_entries(&bytes);
    assert_eq!(entries.len(), 2);
    assert_eq!(entries[0].value, Some(b"v".to_vec()));
    assert!(entries[1].deleted);
}

#[test]
fn memtable_size_accounting() {
    let mut t = MemTable::new(1);
    t.set(b"1", b"a", 1).unwrap();
    let s1 = t.size();
    assert_eq!(s1, 1 + 1 + META_SIZE);
    t.set(b"1", b"bb", 2).unwrap();
    assert_eq!(t.size() - s1, 1);
    assert_eq!(t.get(b"1").unwrap().value, Some(b"bb".to_vec()));
    t.delete(b"1", 3).unwrap();
    assert_eq!(t.size(), 1 + META_SIZE);
    assert!(t.get(b"1").unwrap().meta.deleted);
    t.set(b"1", b"ccc", 4).unwrap();
    assert_eq!(t.size(), 1 + 3 + META_SIZE);
    t.delete(b"2", 5).unwrap();
    assert_eq!(t.size(), 1 + 3 + META_SIZE + 1 + META_SIZE);
    assert!(t.get(b"3").is_none());
}

#[test]
fn memtable_keeps_keys_sorted_and_logs() {
    let mut t = MemTable::new(9);
    for k in ["m", "c", "x", "a", "c"] {
        t.set(k.as_bytes(), b"v", 1).unwrap();
    }
    assert!(t.get(b"a").is_some() && t.get(b"m").is_some() && t.get(b"x").is_some());
    assert!(t.get(b"b").is_none());
    let log = t.flush_wal();
    assert_eq!(read_entries(&log).len(), 5);
    assert_eq!(t.wal_id(), 9);
}

#[test]
fn frozen_memtable_refuses_writes() {
    let mut t = MemTable::new(1);
    t.set(b"a", b"1", 1).unwrap();
    t.to_immutable();
    assert_eq!(t.set(b"a", b"2", 2), Err(MemTableError::Immutable));
    assert_eq!(t.delete(b"a", 2), Err(MemTableError::Immutable));
    assert_eq!(t.get(b"a").unwrap().value, Some(b"1".to_vec()));
}

#[test]
fn empty_storage_set_get_delete() {
    let mut s = Storage::new(config(50), 1, vec![], vec![]).unwrap();
    assert!(not_found(s.get(b"0")));
    s.set(b"0", b"0", 10).unwrap();
    assert_eq!(s.get(b"0").unwrap(), b"0".to_vec());
    s.delete(b"0", 11).unwrap();
    assert!(not_found(s.get(b"0")));
    match s.get(b"0") {
        Err(StorageError::NotFound(k)) => assert_eq!(k, b"0".to_vec()),
        _ => panic!("expected NotFound"),
    }
}

#[test]
fn overwrite_reads_latest() {
    let mut s = Storage::new(config(1 << 20), 1, vec![], vec![]).unwrap();
    s.set(b"1", b"a", 1).unwrap();
    s.set(b"1", b"bb", 2).unwrap();
    assert_eq!(s.get(b"1").unwrap(), b"bb".to_vec());
}

#[test]
fn rotation_keeps_values_visible() {
    let mut s = Storage::new(config(50), 100, vec![], vec![]).unwrap();
    let mut disk = Vec::new();
    for i in 0..20u128 {
        let k = format!("k{}", i);
        s.set(k.as_bytes(), b"value", 5 + i).unwrap();
        sync(&mut s, &mut disk);
    }
    // Each entry accounts for 2 or 3 + 5 + 32 bytes, so tables freeze every
    // second write; log ids must ascend.
    assert!(disk.len() > 5);
    let ids: Vec<u128> = disk.iter().map(|f| f.id).collect();
    assert!(ids.windows(2).all(|w| w[0] < w[1]));
    for i in 0..20 {
        assert_eq!(s.get(format!("k{}", i).as_bytes()).unwrap(), b"value".to_vec());
    }
    // A tombstone in the newest table hides the value in a frozen one.
    s.delete(b"k0", 1000).unwrap();
    assert!(not_found(s.get(b"k0")));
}

#[test]
fn explicit_rotation() {
    let mut s = Storage::new(config(0), 7, vec![], vec![]).unwrap();
    assert!(s.create_immutable_if_exceed_threshold(3));
    s.set(b"a", b"1", 3).unwrap();
    assert_eq!(s.get(b"a").unwrap(), b"1".to_vec());
    let writes = s.flush_wals();
    // The clock reading 3 is not after id 7, so the new ids are 8, then 9.
    let ids: Vec<u128> = writes.iter().map(|w| w.wal_id).collect();
    assert_eq!(ids, vec![7, 8, 9]);
    assert_eq!(s.wal_ids(), vec![7, 8, 9]);
    let mut s = Storage::new(config(1000), 1, vec![], vec![]).unwrap();
    assert!(!s.create_immutable_if_exceed_threshold(5));
}

#[test]
fn recovery_of_hundred_keys() {
    let mut disk = Vec::new();
    let mut s = Storage::new(config(50), 1, vec![], vec![]).unwrap();
    for i in 0..100u128 {
        s.set(format!("k{}", i).as_bytes(), format!("v{}", i).as_bytes(), 10 + i).unwrap();
    }
    let s = reopen(s, &mut disk, 10_000, 50);
    for i in 0..100 {
        assert_eq!(s.get(format!("k{}", i).as_bytes()).unwrap(), format!("v{}", i).into_bytes());
    }
    assert_eq!(s.get(b"k42").unwrap(), b"v42".to_vec());
}

#[test]
fn recovery_twice_keeps_latest() {
    let mut disk = Vec::new();
    let mut s = Storage::new(config(50), 1, vec![], vec![]).unwrap();
    s.set(b"a", b"1", 5).unwrap();
    let mut s = reopen(s, &mut disk, 10, 50);
    s.set(b"a", b"2", 11).unwrap();
    let s = reopen(s, &mut disk, 20, 50);
    assert_eq!(s.get(b"a").unwrap(), b"2".to_vec());
    let entries = read_entries(&disk[0].bytes);
    let visible: Vec<&TableEntry> = entries.iter().filter(|e| e.key == b"a".to_vec()).collect();
    assert_eq!(visible.last().unwrap().value, Some(b"2".to_vec()));
}

#[test]
fn recovery_replays_in_id_order() {
    let mut older = Vec::new();
    encode_set(&mut older, b"k", b"old", 1);
    encode_set(&mut older, b"gone", b"x", 1);
    let mut newer = Vec::new();
    encode_set(&mut newer, b"k", b"new", 2);
    encode_delete(&mut newer, b"gone", 2);
    // Listed newest first: recovery must still replay the older file first.
    let files = vec![FileImage { id: 20, bytes: newer }, FileImage { id: 3, bytes: older }];
    let s = Storage::new(config(1 << 20), 30, files, vec![]).unwrap();
    assert_eq!(s.get(b"k").unwrap(), b"new".to_vec());
    assert!(not_found(s.get(b"gone")));
}

#[test]
fn sort_files_by_id() {
    let files = vec![
        FileImage { id: 5, bytes: vec![1] },
        FileImage { id: 1, bytes: vec![2] },
        FileImage { id: 3, bytes: vec![3] },
        FileImage { id: 1, bytes: vec![4] },
    ];
    let sorted = sort_files(files);
    let got: Vec<(u128, u8)> = sorted.iter().map(|f| (f.id, f.bytes[0])).collect();
    assert_eq!(got, vec![(1, 2), (1, 4), (3, 3), (5, 1)]);
}

#[test]
fn sstable_write_and_read_back() {
    let mut t = SortedStringTable::new(77);
    assert_eq!(t.id(), 77);
    t.write(vec![entry("a", Some("1"), 1), entry("b", None, 2)]);
    let bytes = t.flush();
    let back = read_table(&bytes);
    assert_eq!(back.len(), 2);
    assert_eq!(back[0].value, Some(b"1".to_vec()));
    assert!(back[1].deleted);
    assert!(t.flush().is_empty());
}

#[test]
fn default_config_values() {
    let c = StorageConfig::default_config();
    assert_eq!(c.threshold_bytes, 50);
    assert_eq!(c.dir, "./tmp");
}

/// An in-memory directory: log files and table files.
struct Dir {
    wals: Vec<FileImage>,
    ssts: Vec<FileImage>,
}

fn sync_all(storage: &mut Storage, dir: &mut Dir) {
    sync(storage, &mut dir.wals);
    while let Some(t) = storage.flush_oldest_table() {
        dir.ssts.push(FileImage { id: t.sst_id, bytes: t.bytes });
        dir.wals.retain(|f| f.id != t.wal_id);
    }
}

#[test]
fn flushed_tables_serve_reads_and_survive_reopen() {
    let mut dir = Dir { wals: Vec::new(), ssts: Vec::new() };
    let mut s = Storage::new(config(50), 1, vec![], vec![]).unwrap();
    for i in 0..30u128 {
        s.set(format!("k{:02}", i).as_bytes(), format!("v{}", i).as_bytes(), 2 + i).unwrap();
        sync_all(&mut s, &mut dir);
    }
    s.delete(b"k05", 100).unwrap();
    sync_all(&mut s, &mut dir);
    assert!(!dir.ssts.is_empty());
    let ids: Vec<u128> = dir.ssts.iter().map(|f| f.id).collect();
    assert!(ids.windows(2).all(|w| w[0] < w[1]));
    for i in 0..30 {
        let got = s.get(format!("k{:02}", i).as_bytes());
        if i == 5 {
            assert!(not_found(got));
        } else {
            assert_eq!(got.unwrap(), format!("v{}", i).into_bytes());
        }
    }
    // Reopen over the same files, listed in reverse order.
    let mut wals = dir.wals.clone();
    wals.reverse();
    let mut ssts = dir.ssts.clone();
    ssts.reverse();
    let r = Storage::new(config(50), 10_000, wals, ssts).unwrap();
    for i in 0..30 {
        let got = r.get(format!("k{:02}", i).as_bytes());
        if i == 5 {
            assert!(not_found(got));
        } else {
            assert_eq!(got.unwrap(), format!("v{}", i).into_bytes());
        }
    }
}

#[test]
fn tombstone_in_memtable_masks_table() {
    let mut table = Vec::new();
    encode_set(&mut table, b"a", b"old", 1);
    encode_set(&mut table, b"b", b"kept", 1);
    let mut log = Vec::new();
    encode_delete(&mut log, b"a", 2);
    let s = Storage::new(
        config(1 << 20),
        50,
        vec![FileImage { id: 20, bytes: log }],
        vec![FileImage { id: 10, bytes: table }],
    )
    .unwrap();
    assert!(not_found(s.get(b"a")));
    assert_eq!(s.get(b"b").unwrap(), b"kept".to_vec());
}

#[test]
fn newer_table_wins_over_older() {
    let mut older = Vec::new();
    encode_set(&mut older, b"a", b"1", 1);
    let mut newer = Vec::new();
    encode_set(&mut newer, b"a", b"2", 2);
    let s = Storage::new(
        config(1 << 20),
        50,
        vec![],
        vec![FileImage { id: 9, bytes: newer }, FileImage { id: 4, bytes: older }],
    )
    .unwrap();
    assert_eq!(s.get(b"a").unwrap(), b"2".to_vec());
}

#[test]
fn corrupt_tables_are_refused() {
    let mut unsorted = Vec::new();
    encode_set(&mut unsorted, b"b", b"1", 1);
    encode_set(&mut unsorted, b"a", b"1", 1);
    let r = Storage::new(config(50), 5, vec![], vec![FileImage { id: 1, bytes: unsorted }]);
    assert!(matches!(r, Err(StorageError::CorruptTable)));
    let r = Storage::new(
        config(50),
        5,
        vec![],
        vec![FileImage { id: 1, bytes: vec![] }, FileImage { id: 1, bytes: vec![] }],
    );
    assert!(matches!(r, Err(StorageError::CorruptTable)));
    let mut sorted = Vec::new();
    encode_set(&mut sorted, b"a", b"1", 1);
    encode_set(&mut sorted, b"b", b"1", 1);
    let run = SortedRun::load(FileImage { id: 3, bytes: sorted }).unwrap();
    assert_eq!(run.id(), 3);
    assert_eq!(run.get(b"b").unwrap().value, Some(b"1".to_vec()));
    assert!(run.get(b"c").is_none());
}

#[test]
fn nothing_to_flush() {
    let mut s = Storage::new(config(1 << 20), 1, vec![], vec![]).unwrap();
    s.set(b"a", b"1", 1).unwrap();
    assert!(s.flush_oldest_table().is_none());
}

#[test]
fn fresh_log_ids() {
    let f = |id: u128| FileImage { id, bytes: vec![] };
    assert_eq!(fresh_wal_id(100, &vec![], &vec![]), Some(100));
    assert_eq!(fresh_wal_id(100, &vec![f(5), f(99)], &vec![f(7)]), Some(100));
    assert_eq!(fresh_wal_id(100, &vec![f(5), f(100)], &vec![f(7)]), Some(101));
    assert_eq!(fresh_wal_id(100, &vec![f(5)], &vec![f(250), f(7)]), Some(251));
    assert_eq!(fresh_wal_id(100, &vec![f(u128::MAX)], &vec![]), None);
    assert_eq!(fresh_wal_id(100, &vec![], &vec![f(u128::MAX)]), None);
}
