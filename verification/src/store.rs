//! The store: its index and its writer together.

use crate::command::{read_command, record_at, Command, CommandView};
use crate::disk::{
    disk_of, files_view, lemma_disk_of, lemma_newest_gap, lemma_replay_failed,
    lemma_replay_gap, lemma_stale_grows, newest, newest_through, no_segment_between, replay,
    replay_through, sound, stale, stale_through, SegmentFile,
};
use crate::entries::{distinct_keys, entries_map};
use crate::error::KvsError;
use crate::index::{compacted, offsets_of, total_length, CommandOffset, Index};
use crate::replay::{apply_to_index, lemma_stale_from_bounds, load_index};
use crate::segment::{ascending, ascending_generations, generation_of, parse_generation};
use crate::writer::{
    committed, prepared, removal, Compaction, KvStoreWriter, PendingWrite, PosBufWriter,
    WriterView, COMPACTION_THRESHOLD,
};
use vstd::prelude::*;

verus! {

/// What the contracts see of a store.
pub struct StoreView {
    /// The entries of the index, in their order.
    pub entries: Seq<(Seq<char>, CommandOffset)>,
    /// The writer's side.
    pub writer: WriterView,
}

impl StoreView {
    /// The index: for each live key, where its latest `Set` record lies.
    pub open spec fn index(self) -> Map<Seq<char>, CommandOffset> {
        entries_map(self.entries)
    }
}

/// The value that a buffer holds which is one `Set` record from its first
/// byte to its last.
pub open spec fn value_in(record: Seq<u8>) -> Option<Seq<char>> {
    match record_at(record, 0) {
        Some((CommandView::Put { key, value }, end)) => if end == record.len() {
            Some(value)
        } else {
            None
        },
        _ => None,
    }
}

/// What opening a store on the segments `disk` gives: the store, with the
/// entries that a replay of the disk gives, the generation after the newest
/// as its active one, and the stale bytes of the disk as its count of stale
/// bytes; or the reason why it cannot be opened: `Serde` where a segment
/// cannot be read to its end, else `Overflow` where no generation is left
/// after the newest or the stale bytes leave the 64-bit range.
pub open spec fn opened(disk: Map<u64, Seq<u8>>) -> Result<StoreView, KvsError> {
    if !replay(disk).1 {
        Err(KvsError::Serde)
    } else if newest(disk) >= u64::MAX || stale(disk) > u64::MAX {
        Err(KvsError::Overflow)
    } else {
        Ok(
            StoreView {
                entries: replay(disk).0,
                writer: WriterView {
                    current_gen: (newest(disk) + 1) as u64,
                    pos: 0,
                    uncompacted: stale(disk) as u64,
                },
            },
        )
    }
}

/// The store after a compaction has been installed: every entry points at
/// its copy in the segment of the generation after the active one, the
/// generation after that is active and empty, and nothing is stale.
pub open spec fn compacted_store(s: StoreView) -> StoreView {
    StoreView {
        entries: compacted(s.entries, (s.writer.current_gen + 1) as u64),
        writer: WriterView {
            current_gen: (s.writer.current_gen + 2) as u64,
            pos: 0,
            uncompacted: 0,
        },
    }
}

/// A compaction can be planned: two generations are left behind the active
/// one, and the live records together fit in one segment.
pub open spec fn can_compact(s: StoreView) -> bool {
    s.writer.current_gen <= u64::MAX - 2 && total_length(offsets_of(s.entries)) <= u64::MAX
}

/// A key/value store over a log of segment files. The store holds the index
/// and the writer's state; reading and writing the files is the caller's
/// part, and each operation names the bytes to read or to append.
pub struct KvStore {
    index: Index,
    writer: KvStoreWriter,
}

impl View for KvStore {
    type V = StoreView;

    closed spec fn view(&self) -> StoreView {
        StoreView { entries: self.index.entries(), writer: self.writer@ }
    }
}

impl KvStore {
    /// Opens the store on the regular files `files` of its directory. The
    /// segments among them are replayed in ascending order of generation
    /// into an empty index, and the bytes of the records that later records
    /// displace are counted as stale; the active segment is that of the
    /// generation after the newest, or of generation 1 where there is none,
    /// and is empty: the caller creates its file. Fails with `Serde` where a
    /// segment cannot be read to its end, and else with `Overflow` where no
    /// generation is left after the newest or the count of stale bytes
    /// leaves the 64-bit range.
    pub fn open(files: &Vec<SegmentFile>) -> (r: Result<KvStore, KvsError>)
        ensures
            match opened(disk_of(files_view(files@))) {
                Ok(s) => r is Ok && r->Ok_0@ == s && distinct_keys(s.entries),
                Err(e) => r is Err && r->Err_0 == e,
            },
            sound(disk_of(files_view(files@))),
    {
        let parsed = parse_names(files);
        let gens = ascending_generations(&parsed);
        let ghost disk = disk_of(files_view(files@));
        proof {
            lemma_segments_listed(files_view(files@), parsed@, gens@);
            lemma_disk_of(files_view(files@));
            assert forall|i: int| 0 <= i < files@.len() implies (#[trigger] files_view(
                files@,
            )[i]).1.len() <= u64::MAX by {
                assert(files@[i].data.len() <= usize::MAX);
            }
        }
        let mut index = Index::new();
        assert(distinct_keys(index.entries()));
        let mut k: usize = 0;
        let mut done: u64 = 0;
        let mut uncompacted: u64 = 0;
        let mut over = false;
        while k < gens.len()
            invariant
                k <= gens.len(),
                disk == disk_of(files_view(files@)),
                names_parsed(files_view(files@), parsed@),
                ascending(gens@),
                forall|gen: u64| gens@.contains(gen) <==> disk.contains_key(gen),
                forall|gen: u64| gens@.contains(gen) <==> parsed@.contains(Some(gen)),
                !disk.contains_key(0),
                sound(disk),
                done == if k == 0 { 0 } else { gens@[k - 1] },
                replay_through(disk, done as nat) == (index.entries(), true),
                distinct_keys(index.entries()),
                !over ==> uncompacted == stale_through(disk, done as nat),
                over ==> stale_through(disk, done as nat) > u64::MAX,
            decreases gens.len() - k,
        {
            let gen = gens[k];
            proof {
                assert(gens@.contains(gen));
                lemma_between_neighbours(disk, gens@, k as int);
                lemma_replay_gap(disk, done as nat, (gen - 1) as nat);
            }
            let j = last_of_generation(&parsed, gen);
            proof {
                lemma_segment_content(files_view(files@), parsed@, j as int, gen);
            }
            proof {
                lemma_stale_grows(disk, (gen - 1) as nat, (gen - 1) as nat);
                lemma_stale_from_bounds(index.entries(), gen, disk[gen], 0);
            }
            match load_index(gen, files[j].data.as_slice(), &mut index) {
                Ok(stale) => {
                    if over || stale > u64::MAX - uncompacted {
                        over = true;
                    } else {
                        uncompacted = uncompacted + stale;
                    }
                },
                Err(KvsError::Serde) => {
                    proof {
                        lemma_replay_failed(disk, gen as nat, u64::MAX as nat);
                    }
                    return Err(KvsError::Serde);
                },
                Err(_) => {
                    over = true;
                },
            }
            done = gen;
            k += 1;
        }
        proof {
            lemma_between_neighbours(disk, gens@, k as int);
            lemma_replay_gap(disk, done as nat, u64::MAX as nat);
            lemma_newest_gap(disk, done as nat, u64::MAX as nat);
            if done > 0 {
                assert(gens@.contains(done));
            }
            lemma_newest_is(disk, done as nat);
        }
        if done == u64::MAX || over {
            return Err(KvsError::Overflow);
        }
        let writer = KvStoreWriter::resume(PosBufWriter::new(0), done + 1, uncompacted);
        Ok(KvStore { index, writer })
    }

    /// The generation of the active segment.
    pub fn current_gen(&self) -> (r: u64)
        ensures
            r == self@.writer.current_gen,
    {
        self.writer.current_gen()
    }

    /// The length of the active segment.
    pub fn pos(&self) -> (r: u64)
        ensures
            r == self@.writer.pos,
    {
        self.writer.pos()
    }

    /// The count of stale bytes.
    pub fn uncompacted(&self) -> (r: u64)
        ensures
            r == self@.writer.uncompacted,
    {
        self.writer.uncompacted()
    }

    /// The number of live keys.
    pub fn len(&self) -> (r: usize)
        ensures
            r == self@.entries.len(),
    {
        self.index.len()
    }

    /// Takes over the length `pos` of the active segment, after an append
    /// that failed part of the way.
    pub fn seek(&mut self, pos: u64)
        ensures
            final(self)@ == (StoreView {
                writer: WriterView { pos, ..old(self)@.writer },
                ..old(self)@
            }),
    {
        self.writer.seek(pos);
    }

    /// Where the record lies that holds the value of `key`: the bytes for
    /// `read_value`. `None` where the key is not live.
    pub fn locate(&self, key: &String) -> (r: Option<CommandOffset>)
        ensures
            r == if self@.index().contains_key(key@) {
                Some(self@.index()[key@])
            } else {
                None
            },
            distinct_keys(self@.entries),
    {
        self.index.get(key)
    }

    /// The value in the bytes `record` that were read at the place that
    /// `locate` gave. Fails with `Corruption` where the bytes are not one
    /// `Set` record.
    pub fn read_value(record: &[u8]) -> (r: Result<String, KvsError>)
        ensures
            match r {
                Ok(value) => value_in(record@) == Some(value@),
                Err(e) => e == KvsError::Corruption && value_in(record@) is None,
            },
    {
        match read_command(record) {
            Ok(Command::Put { key, value }) => Ok(value),
            _ => Err(KvsError::Corruption),
        }
    }

    /// Prepares the write that gives `key` the value `value`: its record, to
    /// be appended at the end of the active segment. Nothing changes until
    /// the write is committed. Fails with `Serde` where the key or the value
    /// is not storable, with `Overflow` where the segment cannot take the
    /// record.
    pub fn set(&self, key: String, value: String) -> (r: Result<PendingWrite, KvsError>)
        ensures
            match prepared(self@.writer, CommandView::Put { key: key@, value: value@ }) {
                Ok(at) => r is Ok && r->Ok_0.holds(
                    CommandView::Put { key: key@, value: value@ },
                    at,
                ),
                Err(e) => r is Err && r->Err_0 == e,
            },
    {
        self.writer.set(key, value)
    }

    /// Prepares the write that deletes `key`. Fails with `KeyNotFound`, and
    /// prepares nothing, where the key is not live; otherwise as `set` does.
    pub fn remove(&self, key: String) -> (r: Result<PendingWrite, KvsError>)
        ensures
            match removal(self@.entries, self@.writer, key@) {
                Ok(at) => r is Ok && r->Ok_0.holds(CommandView::Remove { key: key@ }, at),
                Err(e) => r is Err && r->Err_0 == e,
            },
    {
        self.writer.remove(&self.index, key)
    }

    /// Commits a write whose record has been appended to the active segment
    /// and flushed. Returns whether compaction is due.
    pub fn commit(&mut self, write: PendingWrite) -> (r: Result<bool, KvsError>)
        ensures
            match committed(
                old(self)@.entries,
                old(self)@.writer,
                write.command_view(),
                write.at(),
            ) {
                Ok((entries, writer)) => r == Ok::<bool, KvsError>(
                    writer.uncompacted >= COMPACTION_THRESHOLD,
                ) && final(self)@ == (StoreView { entries, writer }),
                Err(e) => r == Err::<bool, KvsError>(e) && final(self)@ == old(self)@,
            },
            r is Ok ==> final(self)@.index() == apply_to_index(
                old(self)@.index(),
                write.command_view(),
                write.at(),
            ),
            distinct_keys(final(self)@.entries),
    {
        self.writer.commit(&mut self.index, write)
    }

    /// Plans a compaction.
    pub fn compact(&self) -> (r: Result<Compaction, KvsError>)
        ensures
            match r {
                Ok(plan) => plan.made_for(self@.entries, self@.writer) && plan.well_formed(),
                Err(e) => e == KvsError::Overflow,
            },
            r is Ok <==> can_compact(self@),
    {
        self.writer.compact(&self.index)
    }

    /// Installs a compaction whose copies have been written and flushed.
    pub fn install(&mut self, plan: &Compaction) -> (r: Result<(), KvsError>)
        ensures
            match r {
                Ok(_) => final(self)@ == compacted_store(old(self)@) && can_compact(old(self)@),
                Err(e) => e == KvsError::Stale && final(self)@ == old(self)@,
            },
            r is Ok <==> plan.made_for(old(self)@.entries, old(self)@.writer),
            distinct_keys(final(self)@.entries),
    {
        self.writer.install(&mut self.index, plan)
    }
}

/// `parsed` holds, for each file, the generation that its name gives.
pub open spec fn names_parsed(files: Seq<(Seq<char>, Seq<u8>)>, parsed: Seq<Option<u64>>) -> bool {
    parsed.len() == files.len() && forall|j: int|
        0 <= j < files.len() ==> #[trigger] parsed[j] == generation_of(files[j].0)
}

/// The ascending generations of the parsed names are the generations that
/// have a segment.
proof fn lemma_segments_listed(
    files: Seq<(Seq<char>, Seq<u8>)>,
    parsed: Seq<Option<u64>>,
    gens: Seq<u64>,
)
    requires
        names_parsed(files, parsed),
        forall|gen: u64| gens.contains(gen) <==> parsed.contains(Some(gen)),
    ensures
        forall|gen: u64| gens.contains(gen) <==> disk_of(files).contains_key(gen),
        !disk_of(files).contains_key(0),
{
    lemma_disk_of(files);
    assert forall|gen: u64| gens.contains(gen) <==> disk_of(files).contains_key(gen) by {
        if gens.contains(gen) {
            let a = choose|a: int| 0 <= a < parsed.len() && parsed[a] == Some(gen);
            assert(generation_of(files[a].0) == Some(gen));
        }
        if disk_of(files).contains_key(gen) {
            let a = choose|a: int|
                0 <= a < files.len() && generation_of(#[trigger] files[a].0) == Some(gen);
            assert(parsed[a] == Some(gen));
        }
    }
}

/// The content of a generation's segment is that of the last file whose name
/// gives the generation.
proof fn lemma_segment_content(
    files: Seq<(Seq<char>, Seq<u8>)>,
    parsed: Seq<Option<u64>>,
    j: int,
    gen: u64,
)
    requires
        names_parsed(files, parsed),
        0 <= j < parsed.len(),
        parsed[j] == Some(gen),
        forall|l: int| j < l < parsed.len() ==> parsed[l] != Some(gen),
    ensures
        disk_of(files).contains_key(gen),
        disk_of(files)[gen] == files[j].1,
{
    lemma_disk_of(files);
    assert(generation_of(files[j].0) == Some(gen));
    assert forall|l: int| j < l < files.len() implies generation_of(#[trigger] files[l].0)
        != generation_of(files[j].0) by {
        assert(parsed[l] != Some(gen));
    }
}

/// Between two neighbours among the ascending generations that have a
/// segment, before the first and behind the last, no generation has one.
proof fn lemma_between_neighbours(disk: Map<u64, Seq<u8>>, gens: Seq<u64>, k: int)
    requires
        ascending(gens),
        forall|gen: u64| gens.contains(gen) <==> disk.contains_key(gen),
        !disk.contains_key(0),
        0 <= k <= gens.len(),
    ensures
        k < gens.len() ==> gens[k] > (if k == 0 { 0 } else { gens[k - 1] }),
        no_segment_between(
            disk,
            (if k == 0 { 0 } else { gens[k - 1] }) as nat,
            (if k == gens.len() { u64::MAX as int } else { gens[k] - 1 }) as nat,
        ),
{
    let a: int = if k == 0 { 0 } else { gens[k - 1] as int };
    let b: int = if k == gens.len() { u64::MAX as int } else { gens[k] - 1 };
    if 0 < k < gens.len() {
        assert(gens[k - 1] < gens[k]);
    }
    if k < gens.len() {
        assert(gens.contains(gens[k]));
    }
    assert forall|g: u64| a < g <= b implies !disk.contains_key(g) by {
        if disk.contains_key(g) {
            assert(gens.contains(g));
            let i = choose|i: int| 0 <= i < gens.len() && gens[i] == g;
            if i < k {
                if i < k - 1 {
                    assert(gens[i] < gens[k - 1]);
                }
            } else if i > k {
                assert(gens[k] < gens[i]);
            }
        }
    }
}

/// A generation that has a segment, or 0, behind which no generation has
/// one, is the newest through itself.
proof fn lemma_newest_is(disk: Map<u64, Seq<u8>>, gen: nat)
    requires
        gen == 0 || disk.contains_key(gen as u64),
        gen <= u64::MAX,
    ensures
        newest_through(disk, gen) == gen,
{
}

/// For each file, the generation that its name gives.
fn parse_names(files: &Vec<SegmentFile>) -> (parsed: Vec<Option<u64>>)
    ensures
        names_parsed(files_view(files@), parsed@),
{
    let mut parsed: Vec<Option<u64>> = Vec::new();
    let mut i: usize = 0;
    while i < files.len()
        invariant
            i <= files.len(),
            parsed.len() == i,
            forall|j: int| 0 <= j < i ==> #[trigger] parsed@[j] == generation_of(files@[j].name@),
        decreases files.len() - i,
    {
        parsed.push(parse_generation(files[i].name.as_str()));
        i += 1;
    }
    parsed
}

/// The place of the last file whose name gives the generation `gen`.
fn last_of_generation(parsed: &Vec<Option<u64>>, gen: u64) -> (j: usize)
    requires
        parsed@.contains(Some(gen)),
    ensures
        j < parsed.len(),
        parsed@[j as int] == Some(gen),
        forall|l: int| j < l < parsed.len() ==> parsed@[l] != Some(gen),
{
    let mut j: usize = parsed.len();
    while j > 0 && !is_generation(parsed, j - 1, gen)
        invariant
            j <= parsed.len(),
            forall|l: int| j <= l < parsed.len() ==> parsed@[l] != Some(gen),
        decreases j,
    {
        j -= 1;
    }
    proof {
        if j == 0 {
            let a = choose|a: int| 0 <= a < parsed@.len() && parsed@[a] == Some(gen);
            assert(parsed@[a] != Some(gen));
        }
    }
    j - 1
}

fn is_generation(parsed: &Vec<Option<u64>>, i: usize, gen: u64) -> (r: bool)
    requires
        i < parsed.len(),
    ensures
        r == (parsed@[i as int] == Some(gen)),
{
    match parsed[i] {
        Some(g) => g == gen,
        None => false,
    }
}

} // verus!
