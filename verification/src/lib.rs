//! The core of a log-structured key/value store.
//!
//! A store is a directory of segment files. Each segment is a log of
//! records, one behind the other, each a `Set` or a `Remove` command; the
//! segment of the newest generation is the active one and takes the
//! appends. An index in memory maps each live key to the place of its
//! latest `Set` record. Once enough bytes of the log are stale, compaction
//! copies the live records into a fresh segment and the older segments go.
//!
//! This crate holds what such a store decides and computes, and leaves the
//! files to its caller. An operation that needs the disk comes in two
//! halves: the first says which bytes to read, to append or to copy, the
//! second takes over once that has been done.
//!
//! - `command`: the commands and the layout of their records;
//! - `json`: the strings of a record, which `serde_json` writes and reads;
//! - `segment`: the names of segment files and the generations they give;
//! - `index`: the index, and the places it points at;
//! - `replay`: rebuilding the index from a segment;
//! - `writer`: the writer's side, with writes and compaction in two halves;
//! - `store`: the store as a whole;
//! - `reader`: the pool of open segment readers of one accessor;
//! - `disk`: the segments of a directory as the contracts see them;
//! - `model`: a store together with its disk, and what operations do to both;
//! - `laws`: what holds of every store that is in step with its disk;
//! - `memory`: a directory in memory, and a store that keeps its files there;
//! - `entries`: lists of entries that stand for mappings.

pub mod command;
pub mod disk;
pub mod entries;
pub mod error;
pub mod index;
pub mod json;
pub mod laws;
pub mod memory;
pub mod model;
pub mod reader;
pub mod replay;
pub mod segment;
pub mod store;
pub mod writer;

pub use command::Command;
pub use disk::SegmentFile;
pub use error::KvsError;
pub use index::{CommandOffset, Index};
pub use memory::{Directory, MemoryStore};
pub use reader::KvStoreReader;
pub use store::KvStore;
pub use writer::{Compaction, KvStoreWriter, PendingWrite, PosBufWriter, COMPACTION_THRESHOLD};
