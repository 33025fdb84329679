//! A store together with its disk: when the two are in step, what the
//! store holds, and what each operation does to both.

use crate::command::{encoding, record_at, CommandView};
use crate::disk::{
    after_compaction, appended, created, newest, record_bytes, replay, sound, stale,
};
use crate::error::KvsError;
use crate::index::{offsets_of, CommandOffset};
use crate::store::{can_compact, compacted_store, opened, value_in, StoreView};
use crate::writer::{committed, prepared, removal};
use vstd::prelude::*;

verus! {

/// At the place `at` lies, from its first byte to its last, a `Set` record
/// for the key `key`.
pub open spec fn points_at_put(disk: Map<u64, Seq<u8>>, key: Seq<char>, at: CommandOffset) -> bool {
    &&& disk.contains_key(at.gen)
    &&& at.pos + at.len <= disk[at.gen].len()
    &&& match record_at(disk[at.gen], at.pos as int) {
        Some((CommandView::Put { key: k, value }, end)) => k == key && end == at.pos + at.len,
        _ => false,
    }
}

/// Every entry points at a `Set` record for its key.
pub open spec fn readable(
    entries: Seq<(Seq<char>, CommandOffset)>,
    disk: Map<u64, Seq<u8>>,
) -> bool {
    forall|i: int|
        0 <= i < entries.len() ==> points_at_put(disk, (#[trigger] entries[i]).0, entries[i].1)
}

/// The store and the disk are in step: the active segment is the newest and
/// as long as the writer's position says, the entries of the index are those
/// that a replay of the disk gives, and the count of stale bytes is the
/// stale bytes of the disk.
pub open spec fn in_step(s: StoreView, disk: Map<u64, Seq<u8>>) -> bool {
    &&& sound(disk)
    &&& disk.contains_key(s.writer.current_gen)
    &&& newest(disk) == s.writer.current_gen
    &&& s.writer.pos == disk[s.writer.current_gen].len()
    &&& replay(disk) == (s.entries, true)
    &&& stale(disk) == s.writer.uncompacted
}

/// What a lookup of `key` gives once the bytes at the place that the index
/// names have been read from the disk: the value, nothing where the key is
/// not live, or `Corruption` where the bytes are not a `Set` record.
pub open spec fn fetched(s: StoreView, disk: Map<u64, Seq<u8>>, key: Seq<char>) -> Result<
    Option<Seq<char>>,
    KvsError,
> {
    if s.index().contains_key(key) {
        match value_in(record_bytes(disk, s.index()[key])) {
            Some(value) => Ok(Some(value)),
            None => Err(KvsError::Corruption),
        }
    } else {
        Ok(None)
    }
}

/// The mapping from keys to values that a store holds: for each live key,
/// the value in the record that the index points at.
pub open spec fn contents(s: StoreView, disk: Map<u64, Seq<u8>>) -> Map<Seq<char>, Seq<char>> {
    Map::new(
        |key: Seq<char>| s.index().contains_key(key),
        |key: Seq<char>| value_in(record_bytes(disk, s.index()[key])).unwrap(),
    )
}

/// The store and the disk after the write of `command` has been prepared,
/// its record appended to the active segment, and the write committed;
/// `None` where the write fails.
pub open spec fn written(s: StoreView, disk: Map<u64, Seq<u8>>, command: CommandView) -> Option<
    (StoreView, Map<u64, Seq<u8>>),
> {
    match prepared(s.writer, command) {
        Ok(at) => match committed(s.entries, s.writer, command, at) {
            Ok((entries, writer)) => Some(
                (
                    StoreView { entries, writer },
                    appended(disk, s.writer.current_gen, encoding(command)),
                ),
            ),
            Err(_) => None,
        },
        Err(_) => None,
    }
}

/// The store and the disk after `key` has been given the value `value`;
/// `None` where that fails.
pub open spec fn after_set(
    s: StoreView,
    disk: Map<u64, Seq<u8>>,
    key: Seq<char>,
    value: Seq<char>,
) -> Option<(StoreView, Map<u64, Seq<u8>>)> {
    written(s, disk, CommandView::Put { key, value })
}

/// The store and the disk after `key` has been removed; `None` where that
/// fails, as it does where the key is not live.
pub open spec fn after_remove(s: StoreView, disk: Map<u64, Seq<u8>>, key: Seq<char>) -> Option<
    (StoreView, Map<u64, Seq<u8>>),
> {
    if removal(s.entries, s.writer, key) is Ok {
        written(s, disk, CommandView::Remove { key })
    } else {
        None
    }
}

/// The disk after a compaction of the store `s`.
pub open spec fn compacted_disk(s: StoreView, disk: Map<u64, Seq<u8>>) -> Map<u64, Seq<u8>> {
    after_compaction(disk, s.writer.current_gen, offsets_of(s.entries))
}

/// One operation on a store.
pub enum Operation {
    /// Give a key a value.
    Put { key: Seq<char>, value: Seq<char> },
    /// Remove a key.
    Remove { key: Seq<char> },
    /// Compact the log.
    Compact,
    /// Close the store and open it again.
    Reopen,
}

/// The store and the disk after one operation. An operation that fails
/// leaves both as they are.
pub open spec fn after(s: StoreView, disk: Map<u64, Seq<u8>>, op: Operation) -> (
    StoreView,
    Map<u64, Seq<u8>>,
) {
    match op {
        Operation::Put { key, value } => match after_set(s, disk, key, value) {
            Some(next) => next,
            None => (s, disk),
        },
        Operation::Remove { key } => match after_remove(s, disk, key) {
            Some(next) => next,
            None => (s, disk),
        },
        Operation::Compact => if can_compact(s) {
            (compacted_store(s), compacted_disk(s, disk))
        } else {
            (s, disk)
        },
        Operation::Reopen => match opened(disk) {
            Ok(t) => (t, created(disk, t.writer.current_gen)),
            Err(_) => (s, disk),
        },
    }
}

/// The store and the disk after a sequence of operations.
pub open spec fn after_all(s: StoreView, disk: Map<u64, Seq<u8>>, ops: Seq<Operation>) -> (
    StoreView,
    Map<u64, Seq<u8>>,
)
    decreases ops.len(),
{
    if ops.len() == 0 {
        (s, disk)
    } else {
        let before = after_all(s, disk, ops.drop_last());
        after(before.0, before.1, ops.last())
    }
}

/// The mapping from keys to values after one operation on a store that holds
/// the mapping `m`: a `Put` that succeeds gives its key its value, a
/// `Remove` that succeeds takes its key out, and nothing else changes
/// anything.
pub open spec fn mapping_after(
    m: Map<Seq<char>, Seq<char>>,
    s: StoreView,
    disk: Map<u64, Seq<u8>>,
    op: Operation,
) -> Map<Seq<char>, Seq<char>> {
    match op {
        Operation::Put { key, value } => if after_set(s, disk, key, value) is Some {
            m.insert(key, value)
        } else {
            m
        },
        Operation::Remove { key } => if after_remove(s, disk, key) is Some {
            m.remove(key)
        } else {
            m
        },
        _ => m,
    }
}

/// The operation writes the key `key`: it gives the key a value or removes
/// it.
pub open spec fn writes_key(op: Operation, key: Seq<char>) -> bool {
    match op {
        Operation::Put { key: k, value } => k == key,
        Operation::Remove { key: k } => k == key,
        _ => false,
    }
}

/// None of the operations writes the key `key`.
pub open spec fn leave_key(ops: Seq<Operation>, key: Seq<char>) -> bool {
    forall|i: int| 0 <= i < ops.len() ==> !writes_key(#[trigger] ops[i], key)
}

} // verus!
