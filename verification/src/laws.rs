//! What holds of every store that is in step with its disk. The laws are
//! the public proof functions; the lemmas before each are their steps.

use crate::command::{
    encoding, lemma_encoding_read_back, lemma_record_bounds, lemma_record_moves, record_at,
    CommandView,
};
use crate::disk::{
    appended, copied, created, lemma_disk_bytes, lemma_newest, lemma_newest_gap,
    lemma_replay_failed, lemma_replay_gap, lemma_size_gap, lemma_stale_grows, newest,
    newest_through, no_segment_between, record_bytes, replay, replay_through, size, size_through,
    sound, stale, stale_through, tombstones,
};
use crate::entries::{distinct_keys, has_key, lemma_entry_in_map, place_of};
use crate::error::KvsError;
use crate::index::{
    compacted, lemma_compacted_keys, lemma_lengths_grow, lengths_before, live_bytes, offsets_of,
    total_length, CommandOffset,
};
use crate::model::{
    after, after_all, after_remove, after_set, compacted_disk, contents, fetched, in_step,
    leave_key, mapping_after, points_at_put, readable, writes_key, written, Operation,
};
use crate::replay::{
    apply, displaced, lemma_apply, lemma_replay_from_distinct, offset_of, replay_from, stale_from,
};
use crate::store::{can_compact, compacted_store, opened, value_in, StoreView};
use crate::writer::{prepared, removal, WriterView, COMPACTION_THRESHOLD};
use vstd::prelude::*;

verus! {

/// The bytes of a record that an entry points at are that record, and hold
/// a value.
proof fn lemma_points_at_value(disk: Map<u64, Seq<u8>>, key: Seq<char>, at: CommandOffset)
    requires
        points_at_put(disk, key, at),
    ensures
        value_in(record_bytes(disk, at)) is Some,
        record_at(record_bytes(disk, at), 0) == Some(
            (record_at(disk[at.gen], at.pos as int).unwrap().0, at.len as int),
        ),
{
    let s = disk[at.gen];
    let bytes = record_bytes(disk, at);
    lemma_record_bounds(s, at.pos as int);
    assert(bytes.subrange(0, at.len as int) =~= bytes);
    lemma_record_moves(s, at.pos as int, bytes, 0);
}

/// A command whose record lies at its place keeps the entries readable.
proof fn lemma_apply_readable(
    entries: Seq<(Seq<char>, CommandOffset)>,
    disk: Map<u64, Seq<u8>>,
    command: CommandView,
    at: CommandOffset,
)
    requires
        readable(entries, disk),
        command is Put ==> points_at_put(disk, command.key(), at),
    ensures
        readable(apply(entries, command, at), disk),
{
    let next = apply(entries, command, at);
    let key = command.key();
    assert forall|i: int| 0 <= i < next.len() implies points_at_put(
        disk,
        (#[trigger] next[i]).0,
        next[i].1,
    ) by {
        match command {
            CommandView::Put { key: k, value } => {
                if has_key(entries, key) {
                    let p = place_of(entries, key);
                    if i != p {
                        assert(next[i] == entries[i]);
                    }
                } else {
                    if i < entries.len() {
                        assert(next[i] == entries[i]);
                    }
                }
            },
            CommandView::Remove { key: k } => {
                if has_key(entries, key) {
                    let p = place_of(entries, key);
                    if i != p {
                        assert(next[i] == entries[i]);
                    } else {
                        assert(next[i] == entries[entries.len() - 1]);
                    }
                }
            },
        }
    }
}

/// Replaying one segment keeps the entries readable.
proof fn lemma_replay_from_readable(
    entries: Seq<(Seq<char>, CommandOffset)>,
    disk: Map<u64, Seq<u8>>,
    gen: u64,
    at: int,
)
    requires
        disk.contains_key(gen),
        disk[gen].len() <= u64::MAX,
        0 <= at,
        readable(entries, disk),
    ensures
        readable(replay_from(entries, gen, disk[gen], at).0, disk),
    decreases disk[gen].len() - at,
{
    let s = disk[gen];
    if at < s.len() {
        match record_at(s, at) {
            Some((command, end)) => {
                lemma_record_bounds(s, at);
                lemma_apply_readable(entries, disk, command, offset_of(gen, at, end));
                lemma_replay_from_readable(
                    apply(entries, command, offset_of(gen, at, end)),
                    disk,
                    gen,
                    end,
                );
            },
            None => {},
        }
    }
}

/// Replaying a sound disk gives readable entries with distinct keys.
proof fn lemma_replay_readable(disk: Map<u64, Seq<u8>>, upto: nat)
    requires
        sound(disk),
        upto <= u64::MAX,
    ensures
        readable(replay_through(disk, upto).0, disk),
        distinct_keys(replay_through(disk, upto).0),
    decreases upto,
{
    if upto > 0 {
        lemma_replay_readable(disk, (upto - 1) as nat);
        let before = replay_through(disk, (upto - 1) as nat);
        if before.1 && disk.contains_key(upto as u64) {
            lemma_replay_from_readable(before.0, disk, upto as u64, 0);
            lemma_replay_from_distinct(before.0, upto as u64, disk[upto as u64], 0);
        }
    }
}

/// A replay that reaches the end of a segment reaches the end of the longer
/// segment that has one more record, and applies that record last.
proof fn lemma_replay_appended(
    entries: Seq<(Seq<char>, CommandOffset)>,
    gen: u64,
    s: Seq<u8>,
    at: int,
    bytes: Seq<u8>,
)
    requires
        0 <= at <= s.len(),
        replay_from(entries, gen, s, at).1,
        record_at(bytes, 0) is Some,
        record_at(bytes, 0).unwrap().1 == bytes.len(),
    ensures
        replay_from(entries, gen, s + bytes, at) == (
            apply(
                replay_from(entries, gen, s, at).0,
                record_at(bytes, 0).unwrap().0,
                offset_of(gen, s.len() as int, (s.len() + bytes.len()) as int),
            ),
            true,
        ),
        stale_from(entries, gen, s + bytes, at) == stale_from(entries, gen, s, at) + displaced(
            replay_from(entries, gen, s, at).0,
            record_at(bytes, 0).unwrap().0,
        ),
    decreases s.len() - at,
{
    let longer = s + bytes;
    lemma_record_bounds(bytes, 0);
    if at == s.len() {
        let command = record_at(bytes, 0).unwrap().0;
        let end = at + bytes.len();
        assert(longer.subrange(at, at + bytes.len()) =~= bytes);
        assert(bytes.subrange(0, bytes.len() as int) =~= bytes);
        lemma_record_moves(bytes, 0, longer, at);
        assert(record_at(longer, at) == Some((command, end)));
        let next = apply(entries, command, offset_of(gen, at, end));
        assert(replay_from(next, gen, longer, end) == (next, true));
        assert(replay_from(entries, gen, longer, at) == replay_from(next, gen, longer, end));
        assert(replay_from(entries, gen, s, at) == (entries, true));
        assert(stale_from(next, gen, longer, end) == 0);
        assert(stale_from(entries, gen, longer, at) == displaced(entries, command) + stale_from(
            next,
            gen,
            longer,
            end,
        ));
        assert(stale_from(entries, gen, s, at) == 0);
    } else {
        assert(record_at(s, at) is Some);
        let (command, end) = record_at(s, at).unwrap();
        lemma_record_bounds(s, at);
        assert(longer.subrange(at, end) =~= s.subrange(at, end));
        lemma_record_moves(s, at, longer, at);
        let next = apply(entries, command, offset_of(gen, at, end));
        assert(replay_from(entries, gen, s, at) == replay_from(next, gen, s, end));
        assert(replay_from(entries, gen, longer, at) == replay_from(next, gen, longer, end));
        assert(stale_from(entries, gen, s, at) == displaced(entries, command) + stale_from(
            next,
            gen,
            s,
            end,
        ));
        assert(stale_from(entries, gen, longer, at) == displaced(entries, command) + stale_from(
            next,
            gen,
            longer,
            end,
        ));
        lemma_replay_appended(next, gen, s, end, bytes);
    }
}

/// The two disks hold the same segments of the generations through `upto`.
spec fn agree_through(a: Map<u64, Seq<u8>>, b: Map<u64, Seq<u8>>, upto: nat) -> bool {
    forall|gen: u64|
        gen <= upto ==> (#[trigger] a.contains_key(gen) <==> b.contains_key(gen)) && (
        a.contains_key(gen) ==> a[gen] == b[gen])
}

/// Disks that agree on the generations through `upto` replay alike through
/// `upto`, and have the same newest generation through `upto`.
proof fn lemma_replay_agrees(a: Map<u64, Seq<u8>>, b: Map<u64, Seq<u8>>, upto: nat)
    requires
        upto <= u64::MAX,
        agree_through(a, b, upto),
    ensures
        replay_through(a, upto) == replay_through(b, upto),
        stale_through(a, upto) == stale_through(b, upto),
        newest_through(a, upto) == newest_through(b, upto),
    decreases upto,
{
    if upto > 0 {
        lemma_replay_agrees(a, b, (upto - 1) as nat);
        assert(a.contains_key(upto as u64) <==> b.contains_key(upto as u64));
    }
}

/// Replaying a disk whose newest segment has one more record gives the
/// entries of the shorter disk with that record applied last.
proof fn lemma_replay_of_appended(disk: Map<u64, Seq<u8>>, gen: u64, bytes: Seq<u8>)
    requires
        disk.contains_key(gen),
        gen >= 1,
        newest(disk) == gen,
        replay(disk).1,
        record_at(bytes, 0) is Some,
        record_at(bytes, 0).unwrap().1 == bytes.len(),
    ensures
        replay(appended(disk, gen, bytes)) == (
            apply(
                replay(disk).0,
                record_at(bytes, 0).unwrap().0,
                offset_of(gen, disk[gen].len() as int, (disk[gen].len() + bytes.len()) as int),
            ),
            true,
        ),
        stale(appended(disk, gen, bytes)) == stale(disk) + displaced(
            replay(disk).0,
            record_at(bytes, 0).unwrap().0,
        ),
        newest(appended(disk, gen, bytes)) == gen,
{
    let longer = appended(disk, gen, bytes);
    lemma_newest(disk, u64::MAX as nat);
    assert(no_segment_between(longer, gen as nat, u64::MAX as nat));
    lemma_replay_gap(disk, gen as nat, u64::MAX as nat);
    lemma_replay_gap(longer, gen as nat, u64::MAX as nat);
    lemma_newest_gap(longer, gen as nat, u64::MAX as nat);
    lemma_replay_agrees(disk, longer, (gen - 1) as nat);
    let before = replay_through(disk, (gen - 1) as nat);
    if !before.1 {
        lemma_replay_failed(disk, (gen - 1) as nat, gen as nat);
    }
    lemma_replay_appended(before.0, gen, disk[gen], 0, bytes);
}

/// In a store that is in step with its disk, every entry points at a `Set`
/// record for its key, and no key occurs twice.
pub proof fn law_index_points_at_records(s: StoreView, disk: Map<u64, Seq<u8>>)
    requires
        in_step(s, disk),
    ensures
        readable(s.entries, disk),
        distinct_keys(s.entries),
        forall|key: Seq<char>| #[trigger]
            s.index().contains_key(key) ==> points_at_put(disk, key, s.index()[key]),
{
    lemma_replay_readable(disk, u64::MAX as nat);
    assert forall|key: Seq<char>| #[trigger] s.index().contains_key(key) implies points_at_put(
        disk,
        key,
        s.index()[key],
    ) by {
        let i = place_of(s.entries, key);
        assert(points_at_put(disk, s.entries[i].0, s.entries[i].1));
    }
}

/// A write that succeeds leaves the store in step with the disk; in the
/// index its command has been applied at the place of its record.
proof fn lemma_write_in_step(s: StoreView, disk: Map<u64, Seq<u8>>, command: CommandView)
    requires
        in_step(s, disk),
        written(s, disk, command) is Some,
    ensures
        in_step(written(s, disk, command).unwrap().0, written(s, disk, command).unwrap().1),
        written(s, disk, command).unwrap().0.entries == apply(
            s.entries,
            command,
            prepared(s.writer, command)->Ok_0,
        ),
        record_bytes(written(s, disk, command).unwrap().1, prepared(s.writer, command)->Ok_0)
            == encoding(command),
{
    let (after, longer) = written(s, disk, command).unwrap();
    let gen = s.writer.current_gen;
    let bytes = encoding(command);
    let at = prepared(s.writer, command)->Ok_0;
    lemma_encoding_read_back(command);
    lemma_replay_of_appended(disk, gen, bytes);
    assert(offset_of(gen, disk[gen].len() as int, (disk[gen].len() + bytes.len()) as int) == at);
    assert(sound(longer));
    assert(record_bytes(longer, at) =~= bytes);
}

/// A write leaves the records that the index pointed at where they were.
proof fn lemma_write_keeps_records(
    s: StoreView,
    disk: Map<u64, Seq<u8>>,
    command: CommandView,
    key: Seq<char>,
)
    requires
        in_step(s, disk),
        written(s, disk, command) is Some,
        s.index().contains_key(key),
    ensures
        record_bytes(written(s, disk, command).unwrap().1, s.index()[key]) == record_bytes(
            disk,
            s.index()[key],
        ),
{
    let longer = written(s, disk, command).unwrap().1;
    let gen = s.writer.current_gen;
    let place = s.index()[key];
    law_index_points_at_records(s, disk);
    assert(points_at_put(disk, key, place));
    if place.gen == gen {
        assert(longer[gen].subrange(place.pos as int, place.pos + place.len) =~= disk[gen].subrange(
            place.pos as int,
            place.pos + place.len,
        ));
    }
}

/// A write that succeeds leaves the store in step with the disk, and changes
/// the mapping from keys to values as its command says: a `Put` gives its
/// key its value, a `Remove` takes its key out, and every other key keeps
/// its value.
pub proof fn law_write(s: StoreView, disk: Map<u64, Seq<u8>>, command: CommandView)
    requires
        in_step(s, disk),
        written(s, disk, command) is Some,
    ensures
        in_step(written(s, disk, command).unwrap().0, written(s, disk, command).unwrap().1),
        contents(written(s, disk, command).unwrap().0, written(s, disk, command).unwrap().1)
            == match command {
            CommandView::Put { key, value } => contents(s, disk).insert(key, value),
            CommandView::Remove { key } => contents(s, disk).remove(key),
        },
{
    let (after, longer) = written(s, disk, command).unwrap();
    let at = prepared(s.writer, command)->Ok_0;
    let before = contents(s, disk);
    let now = contents(after, longer);
    lemma_write_in_step(s, disk, command);
    law_index_points_at_records(s, disk);
    lemma_apply(s.entries, command, at);
    lemma_encoding_read_back(command);
    let expected = match command {
        CommandView::Put { key, value } => before.insert(key, value),
        CommandView::Remove { key } => before.remove(key),
    };
    assert forall|k: Seq<char>| now.contains_key(k) <==> expected.contains_key(k) by {}
    assert forall|k: Seq<char>| now.contains_key(k) implies now[k] == expected[k] by {
        if k == command.key() {
            assert(after.index()[k] == at);
        } else {
            assert(after.index()[k] == s.index()[k]);
            lemma_write_keeps_records(s, disk, command, k);
        }
    }
    assert(now =~= expected);
}

/// In a store that is in step with its disk a lookup never meets corrupt
/// bytes: it gives the value that the store holds for the key, or nothing
/// where the key is not live.
pub proof fn law_lookup(s: StoreView, disk: Map<u64, Seq<u8>>, key: Seq<char>)
    requires
        in_step(s, disk),
    ensures
        fetched(s, disk, key) == if contents(s, disk).contains_key(key) {
            Ok::<Option<Seq<char>>, KvsError>(Some(contents(s, disk)[key]))
        } else {
            Ok::<Option<Seq<char>>, KvsError>(None)
        },
{
    law_index_points_at_records(s, disk);
    if s.index().contains_key(key) {
        lemma_points_at_value(disk, key, s.index()[key]);
    }
}

/// Read-your-writes: after a key has been given a value, a lookup of the key
/// gives that value, and every other key holds what it held.
pub proof fn law_read_your_writes(
    s: StoreView,
    disk: Map<u64, Seq<u8>>,
    key: Seq<char>,
    value: Seq<char>,
)
    requires
        in_step(s, disk),
        after_set(s, disk, key, value) is Some,
    ensures
        in_step(
            after_set(s, disk, key, value).unwrap().0,
            after_set(s, disk, key, value).unwrap().1,
        ),
        fetched(
            after_set(s, disk, key, value).unwrap().0,
            after_set(s, disk, key, value).unwrap().1,
            key,
        ) == Ok::<Option<Seq<char>>, KvsError>(Some(value)),
        contents(
            after_set(s, disk, key, value).unwrap().0,
            after_set(s, disk, key, value).unwrap().1,
        ) == contents(s, disk).insert(key, value),
{
    let (after, longer) = after_set(s, disk, key, value).unwrap();
    law_write(s, disk, CommandView::Put { key, value });
    law_lookup(after, longer, key);
}

/// After a key has been removed, a lookup of the key gives nothing, and
/// every other key holds what it held.
pub proof fn law_read_after_remove(s: StoreView, disk: Map<u64, Seq<u8>>, key: Seq<char>)
    requires
        in_step(s, disk),
        after_remove(s, disk, key) is Some,
    ensures
        in_step(after_remove(s, disk, key).unwrap().0, after_remove(s, disk, key).unwrap().1),
        fetched(
            after_remove(s, disk, key).unwrap().0,
            after_remove(s, disk, key).unwrap().1,
            key,
        ) == Ok::<Option<Seq<char>>, KvsError>(None),
        contents(after_remove(s, disk, key).unwrap().0, after_remove(s, disk, key).unwrap().1)
            == contents(s, disk).remove(key),
{
    let (after, longer) = after_remove(s, disk, key).unwrap();
    law_write(s, disk, CommandView::Remove { key });
    law_lookup(after, longer, key);
}

/// Last-write-wins: after a key has been given one value and then another,
/// a lookup of the key gives the second.
pub proof fn law_last_write_wins(
    s: StoreView,
    disk: Map<u64, Seq<u8>>,
    key: Seq<char>,
    first: Seq<char>,
    second: Seq<char>,
)
    requires
        in_step(s, disk),
        after_set(s, disk, key, first) is Some,
        after_set(
            after_set(s, disk, key, first).unwrap().0,
            after_set(s, disk, key, first).unwrap().1,
            key,
            second,
        ) is Some,
    ensures
        fetched(
            after_set(
                after_set(s, disk, key, first).unwrap().0,
                after_set(s, disk, key, first).unwrap().1,
                key,
                second,
            ).unwrap().0,
            after_set(
                after_set(s, disk, key, first).unwrap().0,
                after_set(s, disk, key, first).unwrap().1,
                key,
                second,
            ).unwrap().1,
            key,
        ) == Ok::<Option<Seq<char>>, KvsError>(Some(second)),
{
    let (middle, longer) = after_set(s, disk, key, first).unwrap();
    law_read_your_writes(s, disk, key, first);
    law_read_your_writes(middle, longer, key, second);
}

/// The removal of a key that is not live fails with `KeyNotFound`, and
/// leaves the store and the disk as they are: no byte is appended.
pub proof fn law_remove_of_absent_key(s: StoreView, disk: Map<u64, Seq<u8>>, key: Seq<char>)
    requires
        !s.index().contains_key(key),
    ensures
        removal(s.entries, s.writer, key) == Err::<CommandOffset, KvsError>(KvsError::KeyNotFound),
        after_remove(s, disk, key) is None,
{
}

/// A store that opens on a sound disk is in step with the disk once its
/// active segment has been created.
pub proof fn law_open(disk: Map<u64, Seq<u8>>)
    requires
        sound(disk),
        opened(disk) is Ok,
    ensures
        in_step(opened(disk).unwrap(), created(disk, opened(disk).unwrap().writer.current_gen)),
        contents(opened(disk).unwrap(), created(disk, opened(disk).unwrap().writer.current_gen))
            == contents(opened(disk).unwrap(), disk),
{
    let t = opened(disk).unwrap();
    let gen = newest(disk);
    let next = t.writer.current_gen;
    let more = created(disk, next);
    lemma_newest(disk, u64::MAX as nat);
    lemma_replay_readable(disk, u64::MAX as nat);
    assert(!disk.contains_key(next));
    assert(agree_through(disk, more, gen));
    lemma_replay_agrees(disk, more, gen);
    lemma_replay_gap(disk, gen, u64::MAX as nat);
    lemma_newest_gap(disk, gen, u64::MAX as nat);
    assert(replay_through(more, next as nat) == replay_from(
        t.entries,
        next,
        Seq::<u8>::empty(),
        0,
    ));
    assert(stale_through(more, next as nat) == stale_through(more, gen) + stale_from(
        t.entries,
        next,
        Seq::<u8>::empty(),
        0,
    ));
    assert(no_segment_between(more, next as nat, u64::MAX as nat));
    lemma_replay_gap(more, next as nat, u64::MAX as nat);
    lemma_newest_gap(more, next as nat, u64::MAX as nat);
    lemma_stale_grows(disk, 0, u64::MAX as nat);
    assert(stale(more) == stale(disk));
    assert(in_step(t, more));
    assert forall|key: Seq<char>| #[trigger]
        t.index().contains_key(key) implies record_bytes(more, t.index()[key]) == record_bytes(
        disk,
        t.index()[key],
    ) by {
        let i = place_of(t.entries, key);
        assert(points_at_put(disk, t.entries[i].0, t.entries[i].1));
    }
    assert(contents(t, more) =~= contents(t, disk));
}

/// A store opens on an empty directory: it holds nothing, its active
/// generation is 1, and it is in step with the disk once the segment of
/// that generation has been created.
pub proof fn law_open_empty()
    ensures
        opened(Map::<u64, Seq<u8>>::empty()) == Ok::<StoreView, KvsError>(
            StoreView {
                entries: Seq::empty(),
                writer: WriterView { current_gen: 1, pos: 0, uncompacted: 0 },
            },
        ),
        in_step(opened(Map::<u64, Seq<u8>>::empty()).unwrap(), created(Map::empty(), 1)),
        contents(opened(Map::<u64, Seq<u8>>::empty()).unwrap(), created(Map::empty(), 1))
            == Map::<Seq<char>, Seq<char>>::empty(),
{
    let disk = Map::<u64, Seq<u8>>::empty();
    assert(no_segment_between(disk, 0, u64::MAX as nat));
    lemma_replay_gap(disk, 0, u64::MAX as nat);
    lemma_newest_gap(disk, 0, u64::MAX as nat);
    law_open(disk);
    assert(contents(opened(disk).unwrap(), created(disk, 1)) =~= Map::<
        Seq<char>,
        Seq<char>,
    >::empty());
}

/// Reopening loses nothing: a store that is in step with its disk, and
/// whose active generation is not the last one, can be opened again on that
/// disk; the store that opens has the same entries and the same count of
/// stale bytes, holds the same mapping from keys to values, and is in step
/// with the disk once its active segment has been created.
pub proof fn law_reopen(s: StoreView, disk: Map<u64, Seq<u8>>)
    requires
        in_step(s, disk),
        s.writer.current_gen < u64::MAX,
    ensures
        opened(disk) is Ok,
        opened(disk).unwrap().entries == s.entries,
        opened(disk).unwrap().writer.current_gen == s.writer.current_gen + 1,
        opened(disk).unwrap().writer.uncompacted == s.writer.uncompacted,
        in_step(opened(disk).unwrap(), created(disk, opened(disk).unwrap().writer.current_gen)),
        contents(opened(disk).unwrap(), created(disk, opened(disk).unwrap().writer.current_gen))
            == contents(s, disk),
{
    law_open(disk);
    assert(contents(opened(disk).unwrap(), disk) =~= contents(s, disk));
}

/// Each of the first `n` places lies inside a segment of the disk.
spec fn inside(disk: Map<u64, Seq<u8>>, copies: Seq<CommandOffset>, n: int) -> bool {
    forall|i: int|
        0 <= i < n ==> disk.contains_key((#[trigger] copies[i]).gen) && copies[i].pos
            + copies[i].len <= disk[copies[i].gen].len()
}

/// The copies of records take as many bytes as the records, and each copy
/// lies behind the copies of the records before it.
proof fn lemma_copied(disk: Map<u64, Seq<u8>>, copies: Seq<CommandOffset>, n: int, i: int)
    requires
        0 <= i < n <= copies.len(),
        inside(disk, copies, n),
    ensures
        copied(disk, copies, n).len() == lengths_before(copies, n),
        0 <= lengths_before(copies, i),
        lengths_before(copies, i) + copies[i].len <= lengths_before(copies, n),
        copied(disk, copies, n).subrange(
            lengths_before(copies, i),
            lengths_before(copies, i) + copies[i].len,
        ) == record_bytes(disk, copies[i]),
    decreases n,
{
    let last = record_bytes(disk, copies[n - 1]);
    assert(last.len() == copies[n - 1].len);
    lemma_lengths_grow(copies, i, n - 1);
    if n - 1 > 0 {
        lemma_copied(disk, copies, n - 1, 0);
    }
    assert(copied(disk, copies, n - 1).len() == lengths_before(copies, n - 1));
    if i == n - 1 {
        assert(copied(disk, copies, n).subrange(
            lengths_before(copies, i),
            lengths_before(copies, i) + copies[i].len,
        ) =~= last);
    } else {
        lemma_copied(disk, copies, n - 1, i);
        assert(copied(disk, copies, n).subrange(
            lengths_before(copies, i),
            lengths_before(copies, i) + copies[i].len,
        ) =~= copied(disk, copies, n - 1).subrange(
            lengths_before(copies, i),
            lengths_before(copies, i) + copies[i].len,
        ));
    }
}

/// Replaying the copies of the records of the first `n` entries gives these
/// entries, each pointing at its copy.
proof fn lemma_replay_copied(
    entries: Seq<(Seq<char>, CommandOffset)>,
    disk: Map<u64, Seq<u8>>,
    gen: u64,
    n: int,
)
    requires
        readable(entries, disk),
        distinct_keys(entries),
        0 <= n <= entries.len(),
        lengths_before(offsets_of(entries), n) <= u64::MAX,
    ensures
        replay_from(Seq::empty(), gen, copied(disk, offsets_of(entries), n), 0) == (
            compacted(entries, gen).take(n),
            true,
        ),
        stale_from(Seq::empty(), gen, copied(disk, offsets_of(entries), n), 0) == 0,
    decreases n,
{
    let copies = offsets_of(entries);
    let target = compacted(entries, gen);
    if n == 0 {
        assert(target.take(0) =~= Seq::empty());
    } else {
        let key = entries[n - 1].0;
        let at = entries[n - 1].1;
        let so_far = copied(disk, copies, n - 1);
        let bytes = record_bytes(disk, at);
        lemma_lengths_grow(copies, n - 1, n);
        lemma_replay_copied(entries, disk, gen, n - 1);
        assert(inside(disk, copies, n)) by {
            assert forall|i: int| 0 <= i < n implies disk.contains_key((#[trigger] copies[i]).gen)
                && copies[i].pos + copies[i].len <= disk[copies[i].gen].len() by {
                assert(points_at_put(disk, entries[i].0, entries[i].1));
            }
        }
        lemma_copied(disk, copies, n, n - 1);
        if n - 1 > 0 {
            lemma_copied(disk, copies, n - 1, 0);
        }
        assert(points_at_put(disk, key, at));
        lemma_points_at_value(disk, key, at);
        lemma_replay_appended(Seq::empty(), gen, so_far, 0, bytes);
        let command = record_at(bytes, 0).unwrap().0;
        let to = offset_of(gen, so_far.len() as int, (so_far.len() + bytes.len()) as int);
        assert(to == target[n - 1].1);
        assert(command.key() == key && command is Put);
        let before = target.take(n - 1);
        assert(!has_key(before, key)) by {
            if has_key(before, key) {
                let i = place_of(before, key);
                assert(before[i] == target[i]);
                assert(entries[i].0 == entries[n - 1].0);
            }
        }
        assert(before.push((key, to)) =~= target.take(n));
    }
}

/// Compaction changes nothing in what the store holds: the store after it
/// is in step with the disk after it, and the mapping from keys to values
/// is the same as before.
pub proof fn law_compaction(s: StoreView, disk: Map<u64, Seq<u8>>)
    requires
        in_step(s, disk),
        can_compact(s),
    ensures
        in_step(compacted_store(s), compacted_disk(s, disk)),
        contents(compacted_store(s), compacted_disk(s, disk)) == contents(s, disk),
{
    let gen = s.writer.current_gen;
    let first = (gen + 1) as u64;
    let second = (gen + 2) as u64;
    let copies = offsets_of(s.entries);
    let n = s.entries.len() as int;
    let t = compacted_store(s);
    let after = compacted_disk(s, disk);
    law_index_points_at_records(s, disk);
    lemma_newest(disk, u64::MAX as nat);
    lemma_replay_copied(s.entries, disk, first, n);
    lemma_compacted_keys(s.entries, first);
    assert(t.entries.take(n) =~= t.entries);
    assert(inside(disk, copies, n)) by {
        assert forall|i: int| 0 <= i < n implies disk.contains_key((#[trigger] copies[i]).gen)
            && copies[i].pos + copies[i].len <= disk[copies[i].gen].len() by {
            assert(points_at_put(disk, s.entries[i].0, s.entries[i].1));
        }
    }
    if n > 0 {
        lemma_copied(disk, copies, n, 0);
    }
    assert(sound(after));
    assert(no_segment_between(after, 0, gen as nat));
    lemma_replay_gap(after, 0, gen as nat);
    lemma_newest_gap(after, 0, gen as nat);
    assert(replay_through(after, first as nat) == (t.entries, true));
    assert(stale_through(after, gen as nat) == 0);
    assert(stale_through(after, first as nat) == stale_through(after, gen as nat) + stale_from(
        Seq::empty(),
        first,
        after[first],
        0,
    ));
    assert(replay_through(after, second as nat) == replay_from(
        t.entries,
        second,
        Seq::<u8>::empty(),
        0,
    ));
    assert(stale_through(after, second as nat) == stale_through(after, first as nat)
        + stale_from(t.entries, second, Seq::<u8>::empty(), 0));
    assert(no_segment_between(after, second as nat, u64::MAX as nat));
    lemma_replay_gap(after, second as nat, u64::MAX as nat);
    lemma_newest_gap(after, second as nat, u64::MAX as nat);
    assert(stale(after) == 0);
    assert(in_step(t, after));
    assert forall|key: Seq<char>| #[trigger]
        s.index().contains_key(key) implies t.index().contains_key(key) && record_bytes(
        after,
        t.index()[key],
    ) == record_bytes(disk, s.index()[key]) by {
        let i = place_of(s.entries, key);
        lemma_entry_in_map(s.entries, i);
        assert(t.entries[i].0 == key);
        lemma_entry_in_map(t.entries, i);
        lemma_copied(disk, copies, n, i);
    }
    assert(contents(t, after) =~= contents(s, disk));
}

/// Compaction leaves no stale record: after it the disk holds two segments
/// and nothing else, the active one, which is empty, and the one before it,
/// which holds the live records one behind the other and not a byte more.
pub proof fn law_compaction_leaves_live_records(s: StoreView, disk: Map<u64, Seq<u8>>)
    requires
        in_step(s, disk),
        can_compact(s),
    ensures
        forall|gen: u64| #[trigger]
            compacted_disk(s, disk).contains_key(gen) <==> gen == s.writer.current_gen + 1 || gen
                == s.writer.current_gen + 2,
        compacted_disk(s, disk)[(s.writer.current_gen + 2) as u64].len() == 0,
        compacted_disk(s, disk)[(s.writer.current_gen + 1) as u64].len() == total_length(
            offsets_of(s.entries),
        ),
        forall|i: int|
            0 <= i < s.entries.len() ==> record_bytes(
                compacted_disk(s, disk),
                (#[trigger] compacted_store(s).entries[i]).1,
            ) == record_bytes(disk, s.entries[i].1),
{
    let gen = s.writer.current_gen;
    let copies = offsets_of(s.entries);
    let n = s.entries.len() as int;
    law_index_points_at_records(s, disk);
    lemma_newest(disk, u64::MAX as nat);
    assert(inside(disk, copies, n)) by {
        assert forall|i: int| 0 <= i < n implies disk.contains_key((#[trigger] copies[i]).gen)
            && copies[i].pos + copies[i].len <= disk[copies[i].gen].len() by {
            assert(points_at_put(disk, s.entries[i].0, s.entries[i].1));
        }
    }
    if n > 0 {
        lemma_copied(disk, copies, n, 0);
    }
    assert forall|i: int| 0 <= i < s.entries.len() implies record_bytes(
        compacted_disk(s, disk),
        (#[trigger] compacted_store(s).entries[i]).1,
    ) == record_bytes(disk, s.entries[i].1) by {
        lemma_copied(disk, copies, n, i);
    }
}

/// Every byte on the disk is accounted for: the segments take together what
/// the live records take, what the store counts as stale, and what the
/// `Remove` records take.
pub proof fn law_disk_bytes(s: StoreView, disk: Map<u64, Seq<u8>>)
    requires
        in_step(s, disk),
    ensures
        size(disk) == live_bytes(s.entries) + s.writer.uncompacted + tombstones(disk),
{
    lemma_disk_bytes(disk, u64::MAX as nat);
}

/// The disk stays small: while less than the threshold is stale, the
/// segments take together less than the live records, the `Remove` records
/// and the threshold.
pub proof fn law_bounded_size(s: StoreView, disk: Map<u64, Seq<u8>>)
    requires
        in_step(s, disk),
        s.writer.uncompacted < COMPACTION_THRESHOLD,
    ensures
        size(disk) < live_bytes(s.entries) + tombstones(disk) + COMPACTION_THRESHOLD,
{
    law_disk_bytes(s, disk);
}

/// After a compaction the disk takes what the live records take, and no
/// byte more: nothing is stale, and no `Remove` record is left.
pub proof fn law_compaction_reclaims(s: StoreView, disk: Map<u64, Seq<u8>>)
    requires
        in_step(s, disk),
        can_compact(s),
    ensures
        size(compacted_disk(s, disk)) == live_bytes(s.entries),
        live_bytes(compacted_store(s).entries) == live_bytes(s.entries),
        compacted_store(s).writer.uncompacted == 0,
        tombstones(compacted_disk(s, disk)) == 0,
{
    let gen = s.writer.current_gen;
    let first = (gen + 1) as u64;
    let second = (gen + 2) as u64;
    let after = compacted_disk(s, disk);
    law_compaction(s, disk);
    law_compaction_leaves_live_records(s, disk);
    law_disk_bytes(compacted_store(s), after);
    lemma_newest(disk, u64::MAX as nat);
    assert(no_segment_between(after, 0, gen as nat));
    lemma_size_gap(after, 0, gen as nat);
    assert(size_through(after, first as nat) == size_through(after, gen as nat)
        + after[first].len());
    assert(size_through(after, second as nat) == size_through(after, first as nat)
        + after[second].len());
    assert(no_segment_between(after, second as nat, u64::MAX as nat));
    lemma_size_gap(after, second as nat, u64::MAX as nat);
    let offsets = offsets_of(s.entries);
    let moved = offsets_of(compacted_store(s).entries);
    assert(lengths_before(moved, moved.len() as int) == lengths_before(
        offsets,
        offsets.len() as int,
    )) by {
        lemma_same_lengths(moved, offsets, offsets.len() as int);
    }
}

/// Records of the same lengths take the same bytes.
proof fn lemma_same_lengths(a: Seq<CommandOffset>, b: Seq<CommandOffset>, n: int)
    requires
        0 <= n <= a.len(),
        n <= b.len(),
        forall|i: int| 0 <= i < n ==> a[i].len == b[i].len,
    ensures
        lengths_before(a, n) == lengths_before(b, n),
    decreases n,
{
    if n > 0 {
        lemma_same_lengths(a, b, n - 1);
    }
}

/// Every operation keeps the store in step with the disk, and changes the
/// mapping from keys to values as a map would change: only a `Put` or a
/// `Remove` that succeeds changes it, and only at its key.
pub proof fn law_operation(s: StoreView, disk: Map<u64, Seq<u8>>, op: Operation)
    requires
        in_step(s, disk),
    ensures
        in_step(after(s, disk, op).0, after(s, disk, op).1),
        contents(after(s, disk, op).0, after(s, disk, op).1) == mapping_after(
            contents(s, disk),
            s,
            disk,
            op,
        ),
{
    match op {
        Operation::Put { key, value } => {
            if after_set(s, disk, key, value) is Some {
                law_read_your_writes(s, disk, key, value);
            }
        },
        Operation::Remove { key } => {
            if after_remove(s, disk, key) is Some {
                law_read_after_remove(s, disk, key);
            }
        },
        Operation::Compact => {
            if can_compact(s) {
                law_compaction(s, disk);
            }
        },
        Operation::Reopen => {
            if opened(disk) is Ok {
                law_open(disk);
                assert(contents(opened(disk).unwrap(), disk) =~= contents(s, disk));
            }
        },
    }
}

/// Whatever the operations on it, a store stays in step with its disk.
pub proof fn law_operations_keep_in_step(
    s: StoreView,
    disk: Map<u64, Seq<u8>>,
    ops: Seq<Operation>,
)
    requires
        in_step(s, disk),
    ensures
        in_step(after_all(s, disk, ops).0, after_all(s, disk, ops).1),
    decreases ops.len(),
{
    if ops.len() > 0 {
        law_operations_keep_in_step(s, disk, ops.drop_last());
        let before = after_all(s, disk, ops.drop_last());
        law_operation(before.0, before.1, ops.last());
    }
}

/// Compactions and reopenings, however many and in whatever order, change
/// nothing in the mapping from keys to values.
pub proof fn law_maintenance_changes_nothing(
    s: StoreView,
    disk: Map<u64, Seq<u8>>,
    ops: Seq<Operation>,
)
    requires
        in_step(s, disk),
        forall|i: int| 0 <= i < ops.len() ==> #[trigger] ops[i] is Compact || ops[i] is Reopen,
    ensures
        in_step(after_all(s, disk, ops).0, after_all(s, disk, ops).1),
        contents(after_all(s, disk, ops).0, after_all(s, disk, ops).1) == contents(s, disk),
    decreases ops.len(),
{
    if ops.len() > 0 {
        let front = ops.drop_last();
        assert forall|i: int| 0 <= i < front.len() implies #[trigger] front[i] is Compact
            || front[i] is Reopen by {
            assert(front[i] == ops[i]);
        }
        law_maintenance_changes_nothing(s, disk, front);
        let before = after_all(s, disk, front);
        law_operation(before.0, before.1, ops.last());
    }
}

/// Read-your-writes after any sequence of operations: in the store that the
/// operations leave, a key that is then given a value holds that value, and
/// a key that is then removed holds nothing.
pub proof fn law_read_your_writes_after_all(
    s: StoreView,
    disk: Map<u64, Seq<u8>>,
    ops: Seq<Operation>,
    key: Seq<char>,
    value: Seq<char>,
)
    requires
        in_step(s, disk),
    ensures
        after_set(after_all(s, disk, ops).0, after_all(s, disk, ops).1, key, value) matches Some(
            next,
        ) ==> fetched(next.0, next.1, key) == Ok::<Option<Seq<char>>, KvsError>(Some(value)),
        after_remove(after_all(s, disk, ops).0, after_all(s, disk, ops).1, key) matches Some(next)
            ==> fetched(next.0, next.1, key) == Ok::<Option<Seq<char>>, KvsError>(None),
{
    let now = after_all(s, disk, ops);
    law_operations_keep_in_step(s, disk, ops);
    if after_set(now.0, now.1, key, value) is Some {
        law_read_your_writes(now.0, now.1, key, value);
    }
    if after_remove(now.0, now.1, key) is Some {
        law_read_after_remove(now.0, now.1, key);
    }
}

/// Operations that do not write a key leave it as it is: whatever they do
/// to other keys, and however often the log is compacted or the store
/// reopened, a lookup of the key gives what it gave before.
pub proof fn law_other_operations_leave_a_key(
    s: StoreView,
    disk: Map<u64, Seq<u8>>,
    ops: Seq<Operation>,
    key: Seq<char>,
)
    requires
        in_step(s, disk),
        leave_key(ops, key),
    ensures
        in_step(after_all(s, disk, ops).0, after_all(s, disk, ops).1),
        fetched(after_all(s, disk, ops).0, after_all(s, disk, ops).1, key) == fetched(
            s,
            disk,
            key,
        ),
    decreases ops.len(),
{
    if ops.len() > 0 {
        let front = ops.drop_last();
        assert forall|i: int| 0 <= i < front.len() implies !writes_key(
            #[trigger] front[i],
            key,
        ) by {
            assert(front[i] == ops[i]);
        }
        law_other_operations_leave_a_key(s, disk, front, key);
        let before = after_all(s, disk, front);
        let now = after_all(s, disk, ops);
        assert(!writes_key(ops[ops.len() - 1], key));
        law_operation(before.0, before.1, ops.last());
        law_lookup(before.0, before.1, key);
        law_lookup(now.0, now.1, key);
    }
}

/// Last-write-wins, whatever happens to other keys: after a key has been
/// given one value and later another, with any operations that do not write
/// the key in between and behind, a lookup of the key gives the second
/// value.
pub proof fn law_last_write_wins_after_all(
    s: StoreView,
    disk: Map<u64, Seq<u8>>,
    key: Seq<char>,
    first: Seq<char>,
    between: Seq<Operation>,
    second: Seq<char>,
    behind: Seq<Operation>,
)
    requires
        in_step(s, disk),
        after_set(s, disk, key, first) is Some,
        leave_key(between, key),
        leave_key(behind, key),
        after_set(
            after_all(
                after_set(s, disk, key, first).unwrap().0,
                after_set(s, disk, key, first).unwrap().1,
                between,
            ).0,
            after_all(
                after_set(s, disk, key, first).unwrap().0,
                after_set(s, disk, key, first).unwrap().1,
                between,
            ).1,
            key,
            second,
        ) is Some,
    ensures
        ({
            let one = after_set(s, disk, key, first).unwrap();
            let two = after_all(one.0, one.1, between);
            let three = after_set(two.0, two.1, key, second).unwrap();
            let four = after_all(three.0, three.1, behind);
            fetched(four.0, four.1, key) == Ok::<Option<Seq<char>>, KvsError>(Some(second))
        }),
{
    let one = after_set(s, disk, key, first).unwrap();
    law_read_your_writes(s, disk, key, first);
    law_operations_keep_in_step(one.0, one.1, between);
    let two = after_all(one.0, one.1, between);
    let three = after_set(two.0, two.1, key, second).unwrap();
    law_read_your_writes(two.0, two.1, key, second);
    law_other_operations_leave_a_key(three.0, three.1, behind, key);
}

} // verus!
