//! The replay of one segment into an index.

use crate::command::{lemma_record_bounds, next_command, record_at, Command, CommandView};
use crate::entries::{
    distinct_keys, entries_map, has_key, inserted, lemma_inserted, lemma_removed, place_of,
    removed,
};
use crate::error::KvsError;
use crate::index::{lemma_total_length, live_bytes, offsets_of, CommandOffset, Index};
use vstd::prelude::*;

verus! {

/// The entries of the index after one command whose record lies at `at`: a
/// `Put` points its key at the record, a `Remove` takes its key out.
pub open spec fn apply(
    entries: Seq<(Seq<char>, CommandOffset)>,
    command: CommandView,
    at: CommandOffset,
) -> Seq<(Seq<char>, CommandOffset)> {
    match command {
        CommandView::Put { key, value } => inserted(entries, key, at),
        CommandView::Remove { key } => removed(entries, key),
    }
}

/// The index after one command whose record lies at `at`.
pub open spec fn apply_to_index(
    index: Map<Seq<char>, CommandOffset>,
    command: CommandView,
    at: CommandOffset,
) -> Map<Seq<char>, CommandOffset> {
    match command {
        CommandView::Put { key, value } => index.insert(key, at),
        CommandView::Remove { key } => index.remove(key),
    }
}

/// A command keeps the keys distinct; in the mapping, a `Put` inserts and a
/// `Remove` removes.
pub proof fn lemma_apply(
    entries: Seq<(Seq<char>, CommandOffset)>,
    command: CommandView,
    at: CommandOffset,
)
    requires
        distinct_keys(entries),
    ensures
        distinct_keys(apply(entries, command, at)),
        entries_map(apply(entries, command, at)) == apply_to_index(
            entries_map(entries),
            command,
            at,
        ),
{
    match command {
        CommandView::Put { key, value } => lemma_inserted(entries, key, at),
        CommandView::Remove { key } => lemma_removed(entries, key),
    }
}

/// The bytes of the record that a command displaces: the record that the
/// command's key points at. 0 where the key is not live.
pub open spec fn displaced(entries: Seq<(Seq<char>, CommandOffset)>, command: CommandView) -> int {
    if has_key(entries, command.key()) {
        entries[place_of(entries, command.key())].1.len as int
    } else {
        0
    }
}

/// The place of the record that fills the bytes from `at` up to `end` of the
/// segment of generation `gen`.
pub open spec fn offset_of(gen: u64, at: int, end: int) -> CommandOffset {
    CommandOffset { gen, pos: at as u64, len: (end - at) as u64 }
}

/// Replays the segment `s` of generation `gen` from offset `at` on, record by
/// record, into the entries of an index. The result is the entries after the
/// last record that could be read, and whether the records reached the end
/// of the segment.
pub open spec fn replay_from(
    entries: Seq<(Seq<char>, CommandOffset)>,
    gen: u64,
    s: Seq<u8>,
    at: int,
) -> (Seq<(Seq<char>, CommandOffset)>, bool)
    decreases s.len() - at,
{
    if at >= s.len() {
        (entries, true)
    } else {
        match record_at(s, at) {
            Some((command, end)) => if at < end {
                replay_from(apply(entries, command, offset_of(gen, at, end)), gen, s, end)
            } else {
                (entries, false)
            },
            None => (entries, false),
        }
    }
}

/// The bytes that go stale while the segment `s` is replayed from offset `at`
/// on: for each record that is read, the bytes of the record that its
/// command displaces. The records of `Remove` commands themselves are not
/// counted.
pub open spec fn stale_from(
    entries: Seq<(Seq<char>, CommandOffset)>,
    gen: u64,
    s: Seq<u8>,
    at: int,
) -> int
    decreases s.len() - at,
{
    if at >= s.len() {
        0
    } else {
        match record_at(s, at) {
            Some((command, end)) => if at < end {
                displaced(entries, command) + stale_from(
                    apply(entries, command, offset_of(gen, at, end)),
                    gen,
                    s,
                    end,
                )
            } else {
                0
            },
            None => 0,
        }
    }
}

/// The count of stale bytes is not negative.
pub proof fn lemma_stale_from_bounds(
    entries: Seq<(Seq<char>, CommandOffset)>,
    gen: u64,
    s: Seq<u8>,
    at: int,
)
    ensures
        stale_from(entries, gen, s, at) >= 0,
    decreases s.len() - at,
{
    if at < s.len() {
        match record_at(s, at) {
            Some((command, end)) => if at < end {
                lemma_stale_from_bounds(
                    apply(entries, command, offset_of(gen, at, end)),
                    gen,
                    s,
                    end,
                );
            },
            None => {},
        }
    }
}

/// The bytes of the `Remove` records that a replay of the segment `s` from
/// offset `at` on reads.
pub open spec fn tombstones_from(s: Seq<u8>, at: int) -> int
    decreases s.len() - at,
{
    if at >= s.len() {
        0
    } else {
        match record_at(s, at) {
            Some((command, end)) => if at < end {
                (if command is Remove {
                    end - at
                } else {
                    0
                }) + tombstones_from(s, end)
            } else {
                0
            },
            None => 0,
        }
    }
}

/// After a command the live records take the bytes they took, less the
/// bytes of the record that the command displaces, and more the bytes of
/// the record of a `Put`.
pub proof fn lemma_live_after_apply(
    entries: Seq<(Seq<char>, CommandOffset)>,
    command: CommandView,
    at: CommandOffset,
)
    ensures
        live_bytes(apply(entries, command, at)) == live_bytes(entries) - displaced(
            entries,
            command,
        ) + if command is Put {
            at.len as int
        } else {
            0
        },
{
    let offsets = offsets_of(entries);
    let key = command.key();
    let place = place_of(entries, key);
    lemma_total_length(offsets, place, at);
    match command {
        CommandView::Put { key: k, value } => {
            if has_key(entries, key) {
                assert(offsets_of(inserted(entries, key, at)) =~= offsets.update(place, at));
            } else {
                assert(offsets_of(inserted(entries, key, at)) =~= offsets.push(at));
            }
        },
        CommandView::Remove { key: k } => {
            if has_key(entries, key) {
                assert(offsets_of(removed(entries, key)) =~= offsets.update(
                    place,
                    offsets.last(),
                ).drop_last());
            }
        },
    }
}

/// Every byte of a segment that is replayed to its end lies in a record:
/// one that is live afterwards, one that is stale, or a `Remove` record.
pub proof fn lemma_segment_bytes(
    entries: Seq<(Seq<char>, CommandOffset)>,
    gen: u64,
    s: Seq<u8>,
    at: int,
)
    requires
        0 <= at <= s.len() <= u64::MAX,
        replay_from(entries, gen, s, at).1,
    ensures
        s.len() - at == live_bytes(replay_from(entries, gen, s, at).0) - live_bytes(entries)
            + stale_from(entries, gen, s, at) + tombstones_from(s, at),
    decreases s.len() - at,
{
    if at < s.len() {
        let (command, end) = record_at(s, at).unwrap();
        lemma_record_bounds(s, at);
        let place = offset_of(gen, at, end);
        lemma_live_after_apply(entries, command, place);
        lemma_segment_bytes(apply(entries, command, place), gen, s, end);
    }
}

/// A replay keeps the keys distinct.
pub proof fn lemma_replay_from_distinct(
    entries: Seq<(Seq<char>, CommandOffset)>,
    gen: u64,
    s: Seq<u8>,
    at: int,
)
    requires
        distinct_keys(entries),
    ensures
        distinct_keys(replay_from(entries, gen, s, at).0),
    decreases s.len() - at,
{
    if at < s.len() {
        match record_at(s, at) {
            Some((command, end)) => if at < end {
                lemma_apply(entries, command, offset_of(gen, at, end));
                lemma_replay_from_distinct(
                    apply(entries, command, offset_of(gen, at, end)),
                    gen,
                    s,
                    end,
                );
            },
            None => {},
        }
    }
}

/// Replays the segment of generation `gen`, whose content is `bytes`, into
/// `index`: each `Set` record points its key at the record, each `Remove`
/// record takes its key out. Returns the bytes that went stale on the way:
/// the bytes of the records that the commands displaced. The index holds
/// what was replayed up to the first offset at which no record can be read,
/// or up to the end. Fails with `Serde` where the records do not reach the
/// end of the segment, and else with `Overflow` where the count of stale
/// bytes leaves the 64-bit range.
pub fn load_index(gen: u64, bytes: &[u8], index: &mut Index) -> (r: Result<u64, KvsError>)
    ensures
        final(index).entries() == replay_from(old(index).entries(), gen, bytes@, 0).0,
        match r {
            Ok(stale) => replay_from(old(index).entries(), gen, bytes@, 0).1 && stale
                == stale_from(old(index).entries(), gen, bytes@, 0),
            Err(e) => if replay_from(old(index).entries(), gen, bytes@, 0).1 {
                e == KvsError::Overflow && stale_from(old(index).entries(), gen, bytes@, 0)
                    > u64::MAX
            } else {
                e == KvsError::Serde
            },
        },
        distinct_keys(final(index).entries()),
{
    proof {
        use_type_invariant(&*index);
    }
    let mut at: usize = 0;
    let mut stale: u64 = 0;
    let mut over = false;
    let ghost mut counted: int = 0;
    while at < bytes.len()
        invariant
            at <= bytes.len(),
            replay_from(old(index).entries(), gen, bytes@, 0) == replay_from(
                index.entries(),
                gen,
                bytes@,
                at as int,
            ),
            stale_from(old(index).entries(), gen, bytes@, 0) == counted + stale_from(
                index.entries(),
                gen,
                bytes@,
                at as int,
            ),
            counted >= 0,
            !over ==> stale == counted,
            over ==> counted > u64::MAX,
            distinct_keys(index.entries()),
        decreases bytes.len() - at,
    {
        match next_command(bytes, at) {
            Some((command, end)) => {
                let ghost before = index.entries();
                let ghost view = command@;
                proof {
                    lemma_entry_of_key(before, view.key());
                }
                let gone = match command {
                    Command::Put { key, value } => index.insert(
                        key,
                        CommandOffset::from((gen, at as u64..end as u64)),
                    ),
                    Command::Remove { key } => index.remove(&key),
                };
                let len: u64 = match gone {
                    Some(place) => place.len,
                    None => 0,
                };
                proof {
                    assert(len == displaced(before, view));
                    counted = counted + len;
                }
                if over || len > u64::MAX - stale {
                    over = true;
                } else {
                    stale = stale + len;
                }
                at = end;
            },
            None => {
                return Err(KvsError::Serde);
            },
        }
    }
    if over {
        Err(KvsError::Overflow)
    } else {
        Ok(stale)
    }
}

/// Where a key is among entries with distinct keys, the mapping holds for it
/// the value of the entry at its place.
proof fn lemma_entry_of_key(entries: Seq<(Seq<char>, CommandOffset)>, key: Seq<char>)
    ensures
        entries_map(entries).contains_key(key) <==> has_key(entries, key),
        has_key(entries, key) ==> entries_map(entries)[key] == entries[place_of(entries, key)].1,
{
}

} // verus!
