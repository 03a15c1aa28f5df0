//! A single-node key-value storage core: a log-structured engine (write-ahead
//! log, sorted memtables, sorted string tables with compaction) and a slotted
//! page format for a future on-disk index.
pub mod keys;
pub mod ds;
pub mod codec;
pub mod wal;
pub mod memtable;
pub mod sstable;
pub mod storage;
pub mod cell;
pub mod page;
