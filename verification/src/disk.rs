//! The segments of a store directory as the contracts see them, a mapping
//! from generations to bytes, and the replay of all of them into an index.

use crate::index::{live_bytes, offsets_of, CommandOffset};
use crate::replay::{
    lemma_segment_bytes, lemma_stale_from_bounds, replay_from, stale_from, tombstones_from,
};
use crate::segment::generation_of;
use vstd::prelude::*;

verus! {

/// A regular file of the store directory: its name and its content.
#[derive(Debug)]
pub struct SegmentFile {
    pub name: String,
    pub data: Vec<u8>,
}

impl Clone for SegmentFile {
    fn clone(&self) -> (r: SegmentFile)
        ensures
            r@ == self@,
    {
        SegmentFile { name: self.name.clone(), data: self.data.clone() }
    }
}

impl View for SegmentFile {
    type V = (Seq<char>, Seq<u8>);

    open spec fn view(&self) -> (Seq<char>, Seq<u8>) {
        (self.name@, self.data@)
    }
}

/// What the contracts see of a list of files.
pub open spec fn files_view(files: Seq<SegmentFile>) -> Seq<(Seq<char>, Seq<u8>)> {
    Seq::new(files.len(), |i: int| files[i]@)
}

/// The segments that a list of files holds: for each generation whose
/// segment file is in the list, the content of that file. Where a name
/// occurs more than once, the last file of that name counts.
pub open spec fn disk_of(files: Seq<(Seq<char>, Seq<u8>)>) -> Map<u64, Seq<u8>>
    decreases files.len(),
{
    if files.len() == 0 {
        Map::empty()
    } else {
        let rest = disk_of(files.drop_last());
        match generation_of(files.last().0) {
            Some(gen) => rest.insert(gen, files.last().1),
            None => rest,
        }
    }
}

/// No segment is longer than 64 bits count, and none has the generation 0.
pub open spec fn sound(disk: Map<u64, Seq<u8>>) -> bool {
    &&& !disk.contains_key(0)
    &&& forall|gen: u64| #[trigger] disk.contains_key(gen) ==> disk[gen].len() <= u64::MAX
}

/// Replays the segments of the generations from 1 through `upto`, in
/// ascending order, into an empty index. The result is the entries of the
/// index after the last record that could be read, and whether every segment
/// could be read to its end.
pub open spec fn replay_through(disk: Map<u64, Seq<u8>>, upto: nat) -> (
    Seq<(Seq<char>, CommandOffset)>,
    bool,
)
    decreases upto,
{
    if upto == 0 {
        (Seq::empty(), true)
    } else {
        let before = replay_through(disk, (upto - 1) as nat);
        if before.1 && disk.contains_key(upto as u64) {
            replay_from(before.0, upto as u64, disk[upto as u64], 0)
        } else {
            before
        }
    }
}

/// Replays all segments, in ascending order of generation.
pub open spec fn replay(disk: Map<u64, Seq<u8>>) -> (Seq<(Seq<char>, CommandOffset)>, bool) {
    replay_through(disk, u64::MAX as nat)
}

/// The bytes that go stale while the segments of the generations from 1
/// through `upto` are replayed: the bytes of every record that a later
/// record displaces.
pub open spec fn stale_through(disk: Map<u64, Seq<u8>>, upto: nat) -> int
    decreases upto,
{
    if upto == 0 {
        0
    } else {
        let before = replay_through(disk, (upto - 1) as nat);
        stale_through(disk, (upto - 1) as nat) + if before.1 && disk.contains_key(upto as u64) {
            stale_from(before.0, upto as u64, disk[upto as u64], 0)
        } else {
            0
        }
    }
}

/// The bytes on the disk that are stale: the bytes of every record that a
/// later record displaces.
pub open spec fn stale(disk: Map<u64, Seq<u8>>) -> int {
    stale_through(disk, u64::MAX as nat)
}

/// The bytes that the segments of the generations from 1 through `upto`
/// take together.
pub open spec fn size_through(disk: Map<u64, Seq<u8>>, upto: nat) -> int
    decreases upto,
{
    if upto == 0 {
        0
    } else {
        size_through(disk, (upto - 1) as nat) + if disk.contains_key(upto as u64) {
            disk[upto as u64].len() as int
        } else {
            0
        }
    }
}

/// The bytes that all segments take together.
pub open spec fn size(disk: Map<u64, Seq<u8>>) -> int {
    size_through(disk, u64::MAX as nat)
}

/// The bytes of the `Remove` records in the segments of the generations from
/// 1 through `upto`.
pub open spec fn tombstones_through(disk: Map<u64, Seq<u8>>, upto: nat) -> int
    decreases upto,
{
    if upto == 0 {
        0
    } else {
        tombstones_through(disk, (upto - 1) as nat) + if disk.contains_key(upto as u64) {
            tombstones_from(disk[upto as u64], 0)
        } else {
            0
        }
    }
}

/// The bytes of the `Remove` records on the disk.
pub open spec fn tombstones(disk: Map<u64, Seq<u8>>) -> int {
    tombstones_through(disk, u64::MAX as nat)
}

/// Every byte of segments that are replayed to their ends lies in a record:
/// one that is live afterwards, one that is stale, or a `Remove` record.
pub proof fn lemma_disk_bytes(disk: Map<u64, Seq<u8>>, upto: nat)
    requires
        sound(disk),
        upto <= u64::MAX,
        replay_through(disk, upto).1,
    ensures
        size_through(disk, upto) == live_bytes(replay_through(disk, upto).0) + stale_through(
            disk,
            upto,
        ) + tombstones_through(disk, upto),
    decreases upto,
{
    if upto == 0 {
        assert(offsets_of(Seq::<(Seq<char>, CommandOffset)>::empty()) =~= Seq::empty());
    } else {
        let before = replay_through(disk, (upto - 1) as nat);
        lemma_disk_bytes(disk, (upto - 1) as nat);
        if disk.contains_key(upto as u64) {
            lemma_segment_bytes(before.0, upto as u64, disk[upto as u64], 0);
        }
    }
}

/// The largest generation from 1 through `upto` that has a segment; 0 where
/// none has.
pub open spec fn newest_through(disk: Map<u64, Seq<u8>>, upto: nat) -> nat
    decreases upto,
{
    if upto == 0 {
        0
    } else if disk.contains_key(upto as u64) {
        upto
    } else {
        newest_through(disk, (upto - 1) as nat)
    }
}

/// The largest generation that has a segment; 0 where the disk is empty.
pub open spec fn newest(disk: Map<u64, Seq<u8>>) -> nat {
    newest_through(disk, u64::MAX as nat)
}

/// The disk after `bytes` have been appended to the segment of generation
/// `gen`.
pub open spec fn appended(disk: Map<u64, Seq<u8>>, gen: u64, bytes: Seq<u8>) -> Map<
    u64,
    Seq<u8>,
> {
    disk.insert(gen, disk[gen] + bytes)
}

/// The disk after an empty segment of generation `gen` has been created.
pub open spec fn created(disk: Map<u64, Seq<u8>>, gen: u64) -> Map<u64, Seq<u8>> {
    disk.insert(gen, Seq::empty())
}

/// The bytes that lie at the place `at`.
pub open spec fn record_bytes(disk: Map<u64, Seq<u8>>, at: CommandOffset) -> Seq<u8> {
    disk[at.gen].subrange(at.pos as int, at.pos + at.len)
}

/// The bytes at the first `n` of the places `copies`, one behind the other.
pub open spec fn copied(disk: Map<u64, Seq<u8>>, copies: Seq<CommandOffset>, n: int) -> Seq<u8>
    decreases n,
{
    if n <= 0 {
        Seq::empty()
    } else {
        copied(disk, copies, n - 1) + record_bytes(disk, copies[n - 1])
    }
}

/// The disk after a compaction from the active generation `base_gen`: the
/// segment of the next generation holds the bytes at the places `copies`,
/// the one after that is empty, and the segments up to `base_gen` are gone.
pub open spec fn after_compaction(
    disk: Map<u64, Seq<u8>>,
    base_gen: u64,
    copies: Seq<CommandOffset>,
) -> Map<u64, Seq<u8>> {
    disk.remove_keys(Set::new(|gen: u64| gen <= base_gen)).insert(
        (base_gen + 1) as u64,
        copied(disk, copies, copies.len() as int),
    ).insert((base_gen + 2) as u64, Seq::empty())
}

/// No generation from `a + 1` through `b` has a segment.
pub open spec fn no_segment_between(disk: Map<u64, Seq<u8>>, a: nat, b: nat) -> bool {
    forall|gen: u64| a < gen <= b ==> !disk.contains_key(gen)
}

/// Generations without a segment change nothing in a replay.
pub proof fn lemma_replay_gap(disk: Map<u64, Seq<u8>>, a: nat, b: nat)
    requires
        a <= b <= u64::MAX,
        no_segment_between(disk, a, b),
    ensures
        replay_through(disk, b) == replay_through(disk, a),
        stale_through(disk, b) == stale_through(disk, a),
    decreases b,
{
    if a < b {
        assert(!disk.contains_key(b as u64));
        lemma_replay_gap(disk, a, (b - 1) as nat);
    }
}

/// The count of stale bytes is not negative, and does not fall as more
/// generations are replayed.
pub proof fn lemma_stale_grows(disk: Map<u64, Seq<u8>>, a: nat, b: nat)
    requires
        a <= b,
    ensures
        0 <= stale_through(disk, a) <= stale_through(disk, b),
    decreases b,
{
    if b > 0 {
        let before = replay_through(disk, (b - 1) as nat);
        lemma_stale_from_bounds(before.0, b as u64, disk[b as u64], 0);
        if a < b {
            lemma_stale_grows(disk, a, (b - 1) as nat);
        } else {
            lemma_stale_grows(disk, (a - 1) as nat, (b - 1) as nat);
        }
    }
}

/// Generations without a segment take no bytes.
pub proof fn lemma_size_gap(disk: Map<u64, Seq<u8>>, a: nat, b: nat)
    requires
        a <= b <= u64::MAX,
        no_segment_between(disk, a, b),
    ensures
        size_through(disk, b) == size_through(disk, a),
        tombstones_through(disk, b) == tombstones_through(disk, a),
    decreases b,
{
    if a < b {
        assert(!disk.contains_key(b as u64));
        lemma_size_gap(disk, a, (b - 1) as nat);
    }
}

/// A replay that has failed stays as it is.
pub proof fn lemma_replay_failed(disk: Map<u64, Seq<u8>>, a: nat, b: nat)
    requires
        a <= b,
        !replay_through(disk, a).1,
    ensures
        replay_through(disk, b) == replay_through(disk, a),
    decreases b,
{
    if a < b {
        lemma_replay_failed(disk, a, (b - 1) as nat);
    }
}

/// Generations without a segment are not the newest.
pub proof fn lemma_newest_gap(disk: Map<u64, Seq<u8>>, a: nat, b: nat)
    requires
        a <= b <= u64::MAX,
        no_segment_between(disk, a, b),
    ensures
        newest_through(disk, b) == newest_through(disk, a),
    decreases b,
{
    if a < b {
        assert(!disk.contains_key(b as u64));
        lemma_newest_gap(disk, a, (b - 1) as nat);
    }
}

/// The newest generation is none, or one that has a segment, and no later
/// one has a segment.
pub proof fn lemma_newest(disk: Map<u64, Seq<u8>>, upto: nat)
    requires
        upto <= u64::MAX,
    ensures
        newest_through(disk, upto) <= upto,
        newest_through(disk, upto) > 0 ==> disk.contains_key(newest_through(disk, upto) as u64),
        no_segment_between(disk, newest_through(disk, upto), upto),
    decreases upto,
{
    if upto > 0 && !disk.contains_key(upto as u64) {
        lemma_newest(disk, (upto - 1) as nat);
    }
}

/// Which segments a list of files holds: those of the generations that its
/// names give, each with the content of the last file of that name; and no
/// segment of generation 0.
pub proof fn lemma_disk_of(files: Seq<(Seq<char>, Seq<u8>)>)
    ensures
        forall|gen: u64| #[trigger]
            disk_of(files).contains_key(gen) <==> exists|i: int|
                0 <= i < files.len() && generation_of(#[trigger] files[i].0) == Some(gen),
        forall|i: int|
            #![trigger files[i]]
            0 <= i < files.len() && generation_of(files[i].0) is Some && (forall|j: int|
                i < j < files.len() ==> generation_of(#[trigger] files[j].0) != generation_of(
                    files[i].0,
                )) ==> disk_of(files)[generation_of(files[i].0).unwrap()] == files[i].1,
        !disk_of(files).contains_key(0),
        (forall|i: int| 0 <= i < files.len() ==> (#[trigger] files[i]).1.len() <= u64::MAX)
            ==> sound(disk_of(files)),
    decreases files.len(),
{
    if files.len() > 0 {
        let front = files.drop_last();
        lemma_disk_of(front);
        let last = files.len() - 1;
        assert forall|gen: u64| #[trigger]
            disk_of(files).contains_key(gen) <==> exists|i: int|
                0 <= i < files.len() && generation_of(#[trigger] files[i].0) == Some(gen) by {
            if disk_of(files).contains_key(gen) {
                if generation_of(files[last].0) == Some(gen) {
                } else {
                    assert(disk_of(front).contains_key(gen));
                    let i = choose|i: int|
                        0 <= i < front.len() && generation_of(#[trigger] front[i].0) == Some(gen);
                    assert(files[i] == front[i]);
                }
            }
            if exists|i: int|
                0 <= i < files.len() && generation_of(#[trigger] files[i].0) == Some(gen) {
                let i = choose|i: int|
                    0 <= i < files.len() && generation_of(#[trigger] files[i].0) == Some(gen);
                if i < last {
                    assert(front[i] == files[i]);
                    assert(disk_of(front).contains_key(gen));
                }
            }
        }
        assert forall|i: int|
            #![trigger files[i]]
            0 <= i < files.len() && generation_of(files[i].0) is Some && (forall|j: int|
                i < j < files.len() ==> generation_of(#[trigger] files[j].0) != generation_of(
                    files[i].0,
                )) implies disk_of(files)[generation_of(files[i].0).unwrap()] == files[i].1 by {
            if i < last {
                assert(front[i] == files[i]);
                assert forall|j: int| i < j < front.len() implies generation_of(
                    #[trigger] front[j].0,
                ) != generation_of(front[i].0) by {
                    assert(front[j] == files[j]);
                }
                assert(generation_of(files[last].0) != generation_of(files[i].0));
            }
        }
        if generation_of(files[last].0) is Some {
            let gen = generation_of(files[last].0).unwrap();
            assert(gen >= 1);
        }
    }
}

} // verus!
