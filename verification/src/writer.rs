//! The writer's side of the store. A write and a compaction each come in
//! two halves, one before and one behind the work on the files.

use crate::command::{encoding, writable, Command, CommandView, Record};
use crate::entries::{distinct_keys, has_key, place_of};
use crate::error::KvsError;
use crate::index::{compacted, offsets_of, total_length, CommandOffset, Index};
use crate::replay::{apply, apply_to_index, displaced, lemma_apply};
use vstd::prelude::*;

verus! {

/// Compaction is due once this many bytes of the log are stale.
pub const COMPACTION_THRESHOLD: u64 = 4 * 1024 * 1024;

/// The write position of the active segment: the offset at which the next
/// byte is appended, which is the length of the segment file.
pub struct PosBufWriter {
    pos: u64,
}

impl View for PosBufWriter {
    type V = u64;

    closed spec fn view(&self) -> u64 {
        self.pos
    }
}

impl PosBufWriter {
    /// The position of a writer at the end of a file of `end` bytes.
    pub fn new(end: u64) -> (r: PosBufWriter)
        ensures
            r@ == end,
    {
        PosBufWriter { pos: end }
    }

    /// The current position.
    pub fn pos(&self) -> (r: u64)
        ensures
            r == self@,
    {
        self.pos
    }

    /// Advances the position by the `size` bytes that the file took. Fails
    /// with `Overflow`, and changes nothing, where the position would leave
    /// the 64-bit range.
    pub fn write(&mut self, size: usize) -> (r: Result<usize, KvsError>)
        ensures
            old(self)@ + size <= u64::MAX ==> r == Ok::<usize, KvsError>(size) && final(self)@
                == old(self)@ + size,
            old(self)@ + size > u64::MAX ==> r == Err::<usize, KvsError>(KvsError::Overflow)
                && final(self)@ == old(self)@,
    {
        if size as u64 > u64::MAX - self.pos {
            return Err(KvsError::Overflow);
        }
        self.pos = self.pos + size as u64;
        Ok(size)
    }

    /// Takes over the position `pos` that a seek in the file gave.
    pub fn seek(&mut self, pos: u64) -> (r: u64)
        ensures
            r == pos,
            final(self)@ == pos,
    {
        self.pos = pos;
        pos
    }
}

/// What the contracts see of a writer.
pub struct WriterView {
    /// The generation of the active segment.
    pub current_gen: u64,
    /// The length of the active segment.
    pub pos: u64,
    /// The bytes of the records in the log that later records have
    /// displaced: the stale bytes that compaction will reclaim.
    pub uncompacted: u64,
}

/// A record that is ready to be appended to the active segment, and the
/// place at which it will lie there.
pub struct PendingWrite {
    record: Record,
    size: usize,
    at: CommandOffset,
}

impl PendingWrite {
    #[verifier::type_invariant]
    pub open spec fn well_formed(&self) -> bool {
        &&& self.record().well_formed()
        &&& self.at().len == self.record().bytes_view().len()
        &&& self.at().pos + self.at().len <= u64::MAX
        &&& self.size() == self.at().len
    }

    /// The record.
    pub closed spec fn record(&self) -> Record {
        self.record
    }

    /// The number of bytes of the record.
    pub closed spec fn size(&self) -> usize {
        self.size
    }

    /// Where the record will lie.
    pub closed spec fn at(&self) -> CommandOffset {
        self.at
    }

    /// The command that the record holds.
    pub open spec fn command_view(&self) -> CommandView {
        self.record().command_view()
    }

    /// The bytes of the record.
    pub open spec fn bytes_view(&self) -> Seq<u8> {
        self.record().bytes_view()
    }

    /// The write holds the record of `command`, to lie at `at`.
    pub open spec fn holds(&self, command: CommandView, at: CommandOffset) -> bool {
        self.command_view() == command && self.bytes_view() == encoding(command) && self.at() == at
            && self.well_formed()
    }

    /// The command that the record holds.
    pub fn command(&self) -> (r: &Command)
        ensures
            r@ == self.command_view(),
            self.well_formed(),
    {
        proof {
            use_type_invariant(self);
        }
        self.record.command()
    }

    /// The bytes to append to the segment of generation `self.offset().gen`.
    pub fn bytes(&self) -> (r: &Vec<u8>)
        ensures
            r@ == self.bytes_view(),
            self.well_formed(),
    {
        proof {
            use_type_invariant(self);
        }
        self.record.bytes()
    }

    /// The place at which the record will lie once it is appended.
    pub fn offset(&self) -> (r: CommandOffset)
        ensures
            r == self.at(),
            self.well_formed(),
    {
        proof {
            use_type_invariant(self);
        }
        self.at
    }
}

/// The plan of one compaction: which records to copy, in which order, into
/// the segment of the generation after the active one.
pub struct Compaction {
    base_gen: u64,
    base_pos: u64,
    copies: Vec<CommandOffset>,
}

impl Compaction {
    #[verifier::type_invariant]
    pub open spec fn well_formed(&self) -> bool {
        &&& self.base_gen() <= u64::MAX - 2
        &&& total_length(self.copies_view()) <= u64::MAX
    }

    /// The generation that was active when the plan was made.
    pub closed spec fn base_gen(&self) -> u64 {
        self.base_gen
    }

    /// The length of the active segment when the plan was made.
    pub closed spec fn base_pos(&self) -> u64 {
        self.base_pos
    }

    /// The places of the records to copy, in the order in which they go
    /// into the compaction segment.
    pub closed spec fn copies_view(&self) -> Seq<CommandOffset> {
        self.copies@
    }

    /// The plan was made for a writer at `w` over the entries `entries`.
    pub open spec fn made_for(
        &self,
        entries: Seq<(Seq<char>, CommandOffset)>,
        w: WriterView,
    ) -> bool {
        self.base_gen() == w.current_gen && self.base_pos() == w.pos && self.copies_view()
            == offsets_of(entries)
    }

    /// The generation of the segment that receives the copies.
    pub fn compact_gen(&self) -> (r: u64)
        ensures
            r == self.base_gen() + 1,
    {
        proof {
            use_type_invariant(self);
        }
        self.base_gen + 1
    }

    /// The generation of the segment that is active after the compaction.
    pub fn active_gen(&self) -> (r: u64)
        ensures
            r == self.base_gen() + 2,
    {
        proof {
            use_type_invariant(self);
        }
        self.base_gen + 2
    }

    /// The places of the records to copy, in order.
    pub fn copies(&self) -> (r: &Vec<CommandOffset>)
        ensures
            r@ == self.copies_view(),
    {
        &self.copies
    }

    /// Of the generations `gens`, those whose segments the compaction makes
    /// obsolete: the ones up to the generation that was active.
    pub fn stale(&self, gens: &Vec<u64>) -> (r: Vec<u64>)
        ensures
            r@ == gens@.filter(|gen: u64| gen <= self.base_gen()),
    {
        let mut r: Vec<u64> = Vec::new();
        let mut i: usize = 0;
        let ghost keep = |gen: u64| gen <= self.base_gen();
        assert(gens@.subrange(0, 0).filter(keep) =~= Seq::<u64>::empty()) by {
            reveal(Seq::filter);
        }
        while i < gens.len()
            invariant
                i <= gens.len(),
                keep == (|gen: u64| gen <= self.base_gen()),
                r@ == gens@.subrange(0, i as int).filter(keep),
            decreases gens.len() - i,
        {
            proof {
                reveal(Seq::filter);
                assert(gens@.subrange(0, i + 1).drop_last() =~= gens@.subrange(0, i as int));
            }
            if gens[i] <= self.base_gen {
                r.push(gens[i]);
            }
            i += 1;
        }
        assert(gens@.subrange(0, gens.len() as int) =~= gens@);
        r
    }
}

/// What preparing the write of `command` gives: the place of its record at
/// the end of the active segment, or the reason why it cannot be written:
/// `Serde` where the command is not writable, `Overflow` where the record
/// would end beyond the 64-bit range.
pub open spec fn prepared(w: WriterView, command: CommandView) -> Result<CommandOffset, KvsError> {
    if !writable(command) {
        Err(KvsError::Serde)
    } else if w.pos + encoding(command).len() > u64::MAX {
        Err(KvsError::Overflow)
    } else {
        Ok(CommandOffset { gen: w.current_gen, pos: w.pos, len: encoding(command).len() as u64 })
    }
}

/// What preparing the removal of `key` gives: `KeyNotFound` where the key
/// is not live, else what preparing the write of its `Remove` command gives.
pub open spec fn removal(
    entries: Seq<(Seq<char>, CommandOffset)>,
    w: WriterView,
    key: Seq<char>,
) -> Result<CommandOffset, KvsError> {
    if !has_key(entries, key) {
        Err(KvsError::KeyNotFound)
    } else {
        prepared(w, CommandView::Remove { key })
    }
}

/// What committing a write gives: the entries of the index and the writer
/// after it, or the reason why nothing changes: `Stale` where the record
/// does not lie at the writer's position, `Overflow` where the count of
/// stale bytes would leave the 64-bit range.
pub open spec fn committed(
    entries: Seq<(Seq<char>, CommandOffset)>,
    w: WriterView,
    command: CommandView,
    at: CommandOffset,
) -> Result<(Seq<(Seq<char>, CommandOffset)>, WriterView), KvsError> {
    if at.gen != w.current_gen || at.pos != w.pos {
        Err(KvsError::Stale)
    } else if w.uncompacted + displaced(entries, command) > u64::MAX {
        Err(KvsError::Overflow)
    } else {
        Ok(
            (
                apply(entries, command, at),
                WriterView {
                    current_gen: w.current_gen,
                    pos: (w.pos + at.len) as u64,
                    uncompacted: (w.uncompacted + displaced(entries, command)) as u64,
                },
            ),
        )
    }
}

/// The writer's side of the store: the active generation, the write position
/// in its segment, and the count of stale bytes that triggers compaction.
pub struct KvStoreWriter {
    writer: PosBufWriter,
    current_gen: u64,
    uncompacted: u64,
}

impl View for KvStoreWriter {
    type V = WriterView;

    closed spec fn view(&self) -> WriterView {
        WriterView {
            current_gen: self.current_gen,
            pos: self.writer@,
            uncompacted: self.uncompacted,
        }
    }
}

impl KvStoreWriter {
    /// A writer that appends to the segment of generation `current_gen`
    /// at the position of `writer`. Nothing is stale yet.
    pub fn new(writer: PosBufWriter, current_gen: u64) -> (r: KvStoreWriter)
        ensures
            r@ == (WriterView { current_gen, pos: writer@, uncompacted: 0 }),
    {
        KvStoreWriter { writer, current_gen, uncompacted: 0 }
    }

    /// A writer that takes up a log of which `uncompacted` bytes are stale:
    /// it appends to the segment of generation `current_gen` at the position
    /// of `writer`.
    pub fn resume(writer: PosBufWriter, current_gen: u64, uncompacted: u64) -> (r: KvStoreWriter)
        ensures
            r@ == (WriterView { current_gen, pos: writer@, uncompacted }),
    {
        KvStoreWriter { writer, current_gen, uncompacted }
    }

    /// The generation of the active segment.
    pub fn current_gen(&self) -> (r: u64)
        ensures
            r == self@.current_gen,
    {
        self.current_gen
    }

    /// The length of the active segment.
    pub fn pos(&self) -> (r: u64)
        ensures
            r == self@.pos,
    {
        self.writer.pos()
    }

    /// The count of stale bytes.
    pub fn uncompacted(&self) -> (r: u64)
        ensures
            r == self@.uncompacted,
    {
        self.uncompacted
    }

    /// Takes over the length `pos` of the active segment, after an append
    /// that failed part of the way.
    pub fn seek(&mut self, pos: u64)
        ensures
            final(self)@ == (WriterView { pos, ..old(self)@ }),
    {
        self.writer.seek(pos);
    }

    fn prepare(&self, command: Command) -> (r: Result<PendingWrite, KvsError>)
        ensures
            match prepared(self@, command@) {
                Ok(at) => r is Ok && r->Ok_0.holds(command@, at),
                Err(e) => r is Err && r->Err_0 == e,
            },
    {
        let record = command.encode()?;
        let size = record.len();
        let pos = self.writer.pos();
        if size as u64 > u64::MAX - pos {
            return Err(KvsError::Overflow);
        }
        let at = CommandOffset { gen: self.current_gen, pos, len: size as u64 };
        Ok(PendingWrite { record, size, at })
    }

    /// Prepares the write that gives `key` the value `value`: its record, to
    /// be appended at the end of the active segment. Nothing changes until
    /// the write is committed. Fails with `Serde` where the key or the value
    /// is not storable, with `Overflow` where the segment cannot take the
    /// record.
    pub fn set(&self, key: String, value: String) -> (r: Result<PendingWrite, KvsError>)
        ensures
            match prepared(self@, CommandView::Put { key: key@, value: value@ }) {
                Ok(at) => r is Ok && r->Ok_0.holds(
                    CommandView::Put { key: key@, value: value@ },
                    at,
                ),
                Err(e) => r is Err && r->Err_0 == e,
            },
    {
        self.prepare(Command::Put { key, value })
    }

    /// Prepares the write that deletes `key`. Fails with `KeyNotFound`, and
    /// prepares nothing, where the key is not live; otherwise as `set` does.
    pub fn remove(&self, index: &Index, key: String) -> (r: Result<PendingWrite, KvsError>)
        ensures
            match removal(index.entries(), self@, key@) {
                Ok(at) => r is Ok && r->Ok_0.holds(CommandView::Remove { key: key@ }, at),
                Err(e) => r is Err && r->Err_0 == e,
            },
    {
        if !index.contains_key(&key) {
            return Err(KvsError::KeyNotFound);
        }
        self.prepare(Command::Remove { key })
    }

    /// Commits a write whose record has been appended to the active segment
    /// and flushed: the position moves past the record, the index follows
    /// the command, and the bytes of the record that the key pointed at
    /// before count as stale. Returns whether compaction is due. Fails, and
    /// changes nothing, with `Stale` where the write was not prepared at the
    /// current position, with `Overflow` where the count of stale bytes
    /// would leave the 64-bit range.
    pub fn commit(&mut self, index: &mut Index, write: PendingWrite) -> (r: Result<bool, KvsError>)
        ensures
            match committed(old(index).entries(), old(self)@, write.command_view(), write.at()) {
                Ok((entries, w)) => r == Ok::<bool, KvsError>(
                    w.uncompacted >= COMPACTION_THRESHOLD,
                ) && final(index).entries() == entries && final(self)@ == w,
                Err(e) => r == Err::<bool, KvsError>(e) && final(self)@ == old(self)@
                    && final(index).entries() == old(index).entries(),
            },
            r is Ok ==> final(index)@ == apply_to_index(
                old(index)@,
                write.command_view(),
                write.at(),
            ),
            distinct_keys(old(index).entries()),
            distinct_keys(final(index).entries()),
    {
        proof {
            use_type_invariant(&write);
            use_type_invariant(&*index);
            lemma_apply(index.entries(), write.command_view(), write.at());
        }
        let at = write.at;
        let size = write.size;
        if at.gen != self.current_gen || at.pos != self.writer.pos() {
            return Err(KvsError::Stale);
        }
        let (command, _) = write.record.into_parts();
        let live = match &command {
            Command::Put { key, value } => index.get(key),
            Command::Remove { key } => index.get(key),
        };
        let stale: u64 = match live {
            Some(before) => before.len,
            None => 0,
        };
        if stale > u64::MAX - self.uncompacted {
            return Err(KvsError::Overflow);
        }
        match self.writer.write(size) {
            Ok(_) => {},
            Err(_) => unreached(),
        }
        match command {
            Command::Put { key, value } => {
                index.insert(key, at);
            },
            Command::Remove { key } => {
                index.remove(&key);
            },
        }
        self.uncompacted = self.uncompacted + stale;
        Ok(self.uncompacted >= COMPACTION_THRESHOLD)
    }

    /// Plans a compaction: the live records, in the order of the index, are
    /// to be copied into the segment of the next generation, and the one
    /// after that becomes the active segment. Nothing changes until the plan
    /// is installed. Fails with `Overflow` where no two generations are left
    /// or the live records together take more bytes than 64 bits count.
    pub fn compact(&self, index: &Index) -> (r: Result<Compaction, KvsError>)
        ensures
            match r {
                Ok(plan) => plan.made_for(index.entries(), self@) && plan.well_formed(),
                Err(e) => e == KvsError::Overflow,
            },
            r is Ok <==> self@.current_gen <= u64::MAX - 2 && total_length(
                offsets_of(index.entries()),
            ) <= u64::MAX,
    {
        if self.current_gen > u64::MAX - 2 {
            return Err(KvsError::Overflow);
        }
        if index.live_bytes().is_none() {
            return Err(KvsError::Overflow);
        }
        Ok(
            Compaction {
                base_gen: self.current_gen,
                base_pos: self.writer.pos(),
                copies: index.offsets(),
            },
        )
    }

    /// Installs a compaction whose copies have been written and flushed:
    /// every entry of the index points at its copy, the generation two after
    /// the old one is active and empty, and nothing is stale. Fails with
    /// `Stale`, and changes nothing, where the plan was not made for the
    /// writer and the index as they are.
    pub fn install(&mut self, index: &mut Index, plan: &Compaction) -> (r: Result<(), KvsError>)
        ensures
            match r {
                Ok(_) => final(index).entries() == compacted(
                    old(index).entries(),
                    (old(self)@.current_gen + 1) as u64,
                ) && final(self)@ == (WriterView {
                    current_gen: (old(self)@.current_gen + 2) as u64,
                    pos: 0,
                    uncompacted: 0,
                }),
                Err(e) => e == KvsError::Stale && final(index).entries() == old(index).entries()
                    && final(self)@ == old(self)@,
            },
            r is Ok <==> plan.made_for(old(index).entries(), old(self)@),
            plan.well_formed(),
            distinct_keys(old(index).entries()),
            distinct_keys(final(index).entries()),
    {
        proof {
            use_type_invariant(plan);
            use_type_invariant(&*index);
        }
        if plan.base_gen != self.current_gen || plan.base_pos != self.writer.pos() {
            return Err(KvsError::Stale);
        }
        if !same_offsets(&plan.copies, &index.offsets()) {
            return Err(KvsError::Stale);
        }
        match index.compact(plan.base_gen + 1) {
            Ok(_) => {},
            Err(_) => unreached(),
        }
        self.current_gen = plan.base_gen + 2;
        self.writer.seek(0);
        self.uncompacted = 0;
        Ok(())
    }
}

fn same_offsets(a: &Vec<CommandOffset>, b: &Vec<CommandOffset>) -> (r: bool)
    ensures
        r == (a@ == b@),
{
    if a.len() != b.len() {
        return false;
    }
    let mut i: usize = 0;
    while i < a.len()
        invariant
            i <= a.len(),
            a.len() == b.len(),
            forall|j: int| 0 <= j < i ==> a@[j] == b@[j],
        decreases a.len() - i,
    {
        if a[i] != b[i] {
            return false;
        }
        i += 1;
    }
    assert(a@ =~= b@);
    true
}

} // verus!
