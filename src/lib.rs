//! MiniDB's storage engine: a memtable in front of immutable sorted-string
//! table (SSTable) files, a write-ahead log, flushing of aged log segments into
//! new SSTables, and compaction of all SSTables into one.
use vstd::prelude::*;

pub mod error;
pub mod order;
pub mod table;
pub mod codec;
pub mod engine;
pub mod wal;
pub mod command_type;
pub mod config;
pub mod db;
pub mod flusher;
pub mod files;

verus! {

} // verus!
