//! The index: for each live key, the place of its latest `Set` record.

use crate::entries::{
    distinct_keys, entries_map, has_key, inserted, lemma_entry_in_map, lemma_inserted,
    lemma_removed, place_of, removed,
};
use crate::error::KvsError;
use std::ops::Range;
use vstd::hash_map::StringHashMap;
use vstd::prelude::*;

verus! {

/// Where a command record lies: `len` bytes from byte `pos` of the segment
/// of generation `gen`.
#[derive(Debug, Clone, Copy, PartialEq, Eq, Structural)]
pub struct CommandOffset {
    pub gen: u64,
    pub pos: u64,
    pub len: u64,
}

impl CommandOffset {
    /// The record that fills the byte range `at.1` of generation `at.0`.
    pub fn from(at: (u64, Range<u64>)) -> (r: CommandOffset)
        requires
            at.1.start <= at.1.end,
        ensures
            r.gen == at.0,
            r.pos == at.1.start,
            r.len == at.1.end - at.1.start,
    {
        CommandOffset { gen: at.0, pos: at.1.start, len: at.1.end - at.1.start }
    }
}

/// The offsets of the entries, in their order.
pub open spec fn offsets_of(entries: Seq<(Seq<char>, CommandOffset)>) -> Seq<CommandOffset> {
    Seq::new(entries.len(), |i: int| entries[i].1)
}

/// The number of bytes that the first `n` of the records at `offsets` take.
pub open spec fn lengths_before(offsets: Seq<CommandOffset>, n: int) -> int
    decreases n,
{
    if n <= 0 {
        0
    } else {
        lengths_before(offsets, n - 1) + offsets[n - 1].len
    }
}

/// The number of bytes that all the records at `offsets` take.
pub open spec fn total_length(offsets: Seq<CommandOffset>) -> int {
    lengths_before(offsets, offsets.len() as int)
}

/// The entries after compaction into the segment of generation `gen`: the
/// keys and their order stay, and the records follow one another from
/// offset 0 on without a gap.
pub open spec fn compacted(entries: Seq<(Seq<char>, CommandOffset)>, gen: u64) -> Seq<
    (Seq<char>, CommandOffset),
> {
    Seq::new(
        entries.len(),
        |i: int|
            (
                entries[i].0,
                CommandOffset {
                    gen,
                    pos: lengths_before(offsets_of(entries), i) as u64,
                    len: entries[i].1.len,
                },
            ),
    )
}

/// More records take no fewer bytes.
pub proof fn lemma_lengths_grow(offsets: Seq<CommandOffset>, a: int, b: int)
    requires
        0 <= a <= b,
    ensures
        0 <= lengths_before(offsets, a) <= lengths_before(offsets, b),
    decreases b,
{
    if a < b {
        lemma_lengths_grow(offsets, a, b - 1);
    } else if a > 0 {
        lemma_lengths_grow(offsets, a - 1, a - 1);
    }
}

/// The number of bytes that the records take at which the entries point.
pub open spec fn live_bytes(entries: Seq<(Seq<char>, CommandOffset)>) -> int {
    total_length(offsets_of(entries))
}

/// The first `n` records take the same bytes in two lists that agree on
/// them.
pub proof fn lemma_lengths_agree(a: Seq<CommandOffset>, b: Seq<CommandOffset>, n: int)
    requires
        0 <= n <= a.len(),
        n <= b.len(),
        forall|i: int| 0 <= i < n ==> a[i] == b[i],
    ensures
        lengths_before(a, n) == lengths_before(b, n),
    decreases n,
{
    if n > 0 {
        lemma_lengths_agree(a, b, n - 1);
    }
}

/// With another record at place `i`, the first `n` records take as many
/// bytes more as that record is longer, where `i` is among them.
pub proof fn lemma_lengths_update(a: Seq<CommandOffset>, i: int, x: CommandOffset, n: int)
    requires
        0 <= i < a.len(),
        0 <= n <= a.len(),
    ensures
        lengths_before(a.update(i, x), n) == lengths_before(a, n) + if i < n {
            x.len - a[i].len
        } else {
            0
        },
    decreases n,
{
    if n > 0 {
        lemma_lengths_update(a, i, x, n - 1);
    }
}

/// What a list of records takes with one record more, with another record
/// at one place, and without the record at one place when the last record
/// takes that place.
pub proof fn lemma_total_length(a: Seq<CommandOffset>, i: int, x: CommandOffset)
    ensures
        total_length(a.push(x)) == total_length(a) + x.len,
        0 <= i < a.len() ==> total_length(a.update(i, x)) == total_length(a) - a[i].len + x.len,
        0 <= i < a.len() ==> total_length(a.update(i, a.last()).drop_last()) == total_length(a)
            - a[i].len,
{
    lemma_lengths_agree(a.push(x), a, a.len() as int);
    if 0 <= i < a.len() {
        lemma_lengths_update(a, i, x, a.len() as int);
        let moved = a.update(i, a.last());
        lemma_lengths_update(a, i, a.last(), a.len() as int);
        lemma_lengths_agree(moved.drop_last(), moved, a.len() - 1);
    }
}

/// Compaction keeps the keys, so they stay distinct, and it keeps the length
/// of every record.
pub proof fn lemma_compacted_keys(entries: Seq<(Seq<char>, CommandOffset)>, gen: u64)
    requires
        distinct_keys(entries),
    ensures
        distinct_keys(compacted(entries, gen)),
        forall|key: Seq<char>| has_key(compacted(entries, gen), key) <==> has_key(entries, key),
        entries_map(compacted(entries, gen)).dom() == entries_map(entries).dom(),
{
    let after = compacted(entries, gen);
    assert forall|i: int, j: int|
        0 <= i < after.len() && 0 <= j < after.len() && #[trigger] after[i].0
            == #[trigger] after[j].0 implies i == j by {
        assert(entries[i].0 == entries[j].0);
    }
    assert forall|key: Seq<char>| has_key(after, key) <==> has_key(entries, key) by {
        if has_key(after, key) {
            let i = place_of(after, key);
            assert(entries[i].0 == key);
        }
        if has_key(entries, key) {
            let i = place_of(entries, key);
            assert(after[i].0 == key);
        }
    }
    assert(entries_map(after).dom() =~= entries_map(entries).dom());
}

/// Each key is tied to its place among the entries, and nothing else is.
pub open spec fn tied(
    entries: Seq<(Seq<char>, CommandOffset)>,
    places: Map<Seq<char>, usize>,
) -> bool {
    &&& forall|i: int|
        0 <= i < entries.len() ==> places.contains_key((#[trigger] entries[i]).0)
            && places[entries[i].0] == i
    &&& forall|key: Seq<char>| #[trigger]
        places.contains_key(key) ==> places[key] < entries.len() && entries[places[key] as int].0
            == key
}

/// Entries whose keys are tied to their places have distinct keys, and a key
/// is among them where it is tied to a place.
pub proof fn lemma_tied(entries: Seq<(Seq<char>, CommandOffset)>, places: Map<Seq<char>, usize>)
    requires
        tied(entries, places),
    ensures
        distinct_keys(entries),
        forall|key: Seq<char>| has_key(entries, key) <==> #[trigger] places.contains_key(key),
        forall|key: Seq<char>| #[trigger]
            places.contains_key(key) ==> place_of(entries, key) == places[key],
{
    assert forall|key: Seq<char>| has_key(entries, key) <==> #[trigger] places.contains_key(
        key,
    ) by {
        if has_key(entries, key) {
            let i = place_of(entries, key);
            assert(places.contains_key(entries[i].0));
        }
        if places.contains_key(key) {
            assert(entries[places[key] as int].0 == key);
        }
    }
    assert forall|key: Seq<char>| #[trigger] places.contains_key(key) implies place_of(
        entries,
        key,
    ) == places[key] by {
        let i = place_of(entries, key);
        assert(places.contains_key(entries[i].0));
    }
}

struct IndexEntry {
    key: String,
    offset: CommandOffset,
}

/// What the contracts see of a list of entries.
spec fn entries_view(entries: Seq<IndexEntry>) -> Seq<(Seq<char>, CommandOffset)> {
    entries.map_values(|e: IndexEntry| (e.key@, e.offset))
}

/// The in-memory index: for each live key, where its latest `Set` record
/// lies. The entries are kept in a list, whose order compaction follows; a
/// hash map from each key to its place in the list finds an entry at once.
pub struct Index {
    entries: Vec<IndexEntry>,
    places: StringHashMap<usize>,
}

impl View for Index {
    type V = Map<Seq<char>, CommandOffset>;

    open spec fn view(&self) -> Map<Seq<char>, CommandOffset> {
        entries_map(self.entries())
    }
}

impl Index {
    /// The entries in their order.
    pub closed spec fn entries(&self) -> Seq<(Seq<char>, CommandOffset)> {
        entries_view(self.entries@)
    }

    /// The place of each key.
    pub closed spec fn places(&self) -> Map<Seq<char>, usize> {
        self.places@
    }

    #[verifier::type_invariant]
    pub open spec fn well_formed(&self) -> bool {
        tied(self.entries(), self.places())
    }

    /// An index without entries.
    pub fn new() -> (r: Index)
        ensures
            r.entries() == Seq::<(Seq<char>, CommandOffset)>::empty(),
            r@ == Map::<Seq<char>, CommandOffset>::empty(),
    {
        let r = Index { entries: Vec::new(), places: StringHashMap::new() };
        assert(r.entries() =~= Seq::<(Seq<char>, CommandOffset)>::empty());
        assert(r@ =~= Map::<Seq<char>, CommandOffset>::empty());
        r
    }

    /// The number of live keys.
    pub fn len(&self) -> (n: usize)
        ensures
            n == self.entries().len(),
    {
        self.entries.len()
    }

    fn find(&self, key: &String) -> (r: Option<usize>)
        ensures
            match r {
                Some(i) => i < self.entries().len() && self.entries()[i as int].0 == key@
                    && place_of(self.entries(), key@) == i,
                None => !has_key(self.entries(), key@),
            },
            distinct_keys(self.entries()),
            tied(self.entries(), self.places()),
    {
        proof {
            use_type_invariant(self);
            lemma_tied(self.entries(), self.places());
        }
        match self.places.get(key.as_str()) {
            Some(place) => Some(*place),
            None => None,
        }
    }

    /// Whether `key` is live.
    pub fn contains_key(&self, key: &String) -> (r: bool)
        ensures
            r == self@.contains_key(key@),
    {
        self.find(key).is_some()
    }

    /// Where the latest `Set` record of `key` lies, if the key is live.
    pub fn get(&self, key: &String) -> (r: Option<CommandOffset>)
        ensures
            r == if self@.contains_key(key@) { Some(self@[key@]) } else { None },
            distinct_keys(self.entries()),
    {
        match self.find(key) {
            Some(i) => Some(self.entries[i].offset),
            None => None,
        }
    }

    /// The offsets of the entries, in their order.
    pub fn offsets(&self) -> (r: Vec<CommandOffset>)
        ensures
            r@ == offsets_of(self.entries()),
    {
        let mut r: Vec<CommandOffset> = Vec::new();
        let mut i: usize = 0;
        while i < self.entries.len()
            invariant
                i <= self.entries.len(),
                r@ == offsets_of(self.entries()).subrange(0, i as int),
            decreases self.entries.len() - i,
        {
            r.push(self.entries[i].offset);
            assert(r@ =~= offsets_of(self.entries()).subrange(0, i + 1));
            i += 1;
        }
        assert(r@ =~= offsets_of(self.entries()));
        r
    }

    /// The number of bytes that the records of all entries take together;
    /// `None` where it does not fit in 64 bits.
    pub fn live_bytes(&self) -> (r: Option<u64>)
        ensures
            match r {
                Some(n) => n == total_length(offsets_of(self.entries())),
                None => total_length(offsets_of(self.entries())) > u64::MAX,
            },
    {
        let mut total: u64 = 0;
        let mut i: usize = 0;
        while i < self.entries.len()
            invariant
                i <= self.entries.len(),
                total == lengths_before(offsets_of(self.entries()), i as int),
            decreases self.entries.len() - i,
        {
            let len = self.entries[i].offset.len;
            if len > u64::MAX - total {
                proof {
                    lemma_lengths_grow(
                        offsets_of(self.entries()),
                        i + 1,
                        self.entries().len() as int,
                    );
                }
                return None;
            }
            total = total + len;
            i += 1;
        }
        Some(total)
    }

    /// Takes the entries and the places out of the index, which is left
    /// empty.
    fn take(&mut self) -> (r: (Vec<IndexEntry>, StringHashMap<usize>))
        ensures
            entries_view(r.0@) == old(self).entries(),
            r.1@ == old(self).places(),
            tied(old(self).entries(), old(self).places()),
            final(self).entries() == Seq::<(Seq<char>, CommandOffset)>::empty(),
    {
        proof {
            use_type_invariant(&*self);
        }
        let mut whole = Index::new();
        std::mem::swap(self, &mut whole);
        (whole.entries, whole.places)
    }

    /// Points every entry at its record in the segment of generation `gen`
    /// into which compaction copies the records, one behind the other in the
    /// order of the entries. Fails with `Overflow`, and changes nothing,
    /// where the records together take more bytes than 64 bits count.
    pub fn compact(&mut self, gen: u64) -> (r: Result<(), KvsError>)
        ensures
            match r {
                Ok(_) => final(self).entries() == compacted(old(self).entries(), gen),
                Err(e) => e == KvsError::Overflow && final(self).entries() == old(self).entries(),
            },
            r is Ok <==> total_length(offsets_of(old(self).entries())) <= u64::MAX,
            distinct_keys(old(self).entries()),
            distinct_keys(final(self).entries()),
    {
        proof {
            use_type_invariant(&*self);
            lemma_tied(self.entries(), self.places());
        }
        if self.live_bytes().is_none() {
            return Err(KvsError::Overflow);
        }
        let ghost before = self.entries();
        let (mut entries, places) = self.take();
        let mut pos: u64 = 0;
        let mut i: usize = 0;
        while i < entries.len()
            invariant
                i <= entries.len(),
                entries.len() == before.len(),
                total_length(offsets_of(before)) <= u64::MAX,
                pos == lengths_before(offsets_of(before), i as int),
                forall|j: int|
                    0 <= j < i ==> (#[trigger] entries[j].key@, entries[j].offset) == compacted(
                        before,
                        gen,
                    )[j],
                forall|j: int|
                    i <= j < entries.len() ==> (#[trigger] entries[j].key@, entries[j].offset)
                        == before[j],
            decreases entries.len() - i,
        {
            let len = entries[i].offset.len;
            proof {
                assert((entries[i as int].key@, entries[i as int].offset) == before[i as int]);
                lemma_lengths_grow(offsets_of(before), i + 1, before.len() as int);
            }
            entries[i].offset = CommandOffset { gen, pos, len };
            pos = pos + len;
            i += 1;
        }
        proof {
            let after = entries_view(entries@);
            assert(after =~= compacted(before, gen));
            lemma_compacted_keys(before, gen);
            assert(tied(after, places@)) by {
                assert forall|j: int| 0 <= j < after.len() implies places@.contains_key(
                    (#[trigger] after[j]).0,
                ) && places@[after[j].0] == j by {
                    assert(after[j].0 == before[j].0);
                }
            }
        }
        *self = Index { entries, places };
        Ok(())
    }

    /// Points `key` at `offset` and returns the offset that it pointed at
    /// before, if it was live. A new key goes behind the other entries; a
    /// live key keeps its place.
    pub fn insert(&mut self, key: String, offset: CommandOffset) -> (r: Option<CommandOffset>)
        ensures
            final(self).entries() == inserted(old(self).entries(), key@, offset),
            final(self)@ == old(self)@.insert(key@, offset),
            r == if old(self)@.contains_key(key@) { Some(old(self)@[key@]) } else { None },
            distinct_keys(old(self).entries()),
            distinct_keys(final(self).entries()),
    {
        let ghost before = self.entries();
        let ghost k = key@;
        let found = self.find(&key);
        proof {
            lemma_inserted(before, k, offset);
        }
        let (mut entries, mut places) = self.take();
        let r = match found {
            Some(i) => {
                proof {
                    lemma_entry_in_map(before, i as int);
                }
                let old_offset = entries[i].offset;
                entries[i].offset = offset;
                proof {
                    let after = entries_view(entries@);
                    assert(after =~= before.update(i as int, (k, offset)));
                    assert(tied(after, places@)) by {
                        assert forall|j: int| 0 <= j < after.len() implies places@.contains_key(
                            (#[trigger] after[j]).0,
                        ) && places@[after[j].0] == j by {
                            assert(after[j].0 == before[j].0);
                        }
                    }
                }
                Some(old_offset)
            },
            None => {
                let place = entries.len();
                entries.push(IndexEntry { key: key.clone(), offset });
                places.insert(key, place);
                proof {
                    let after = entries_view(entries@);
                    assert(after =~= before.push((k, offset)));
                    assert(tied(after, places@)) by {
                        assert forall|j: int| 0 <= j < after.len() implies places@.contains_key(
                            (#[trigger] after[j]).0,
                        ) && places@[after[j].0] == j by {
                            if j < before.len() {
                                assert(after[j] == before[j]);
                                assert(before[j].0 != k);
                            }
                        }
                    }
                }
                None
            },
        };
        *self = Index { entries, places };
        r
    }

    /// Takes `key` out and returns the offset that it pointed at, if it was
    /// live. The last entry takes the place of the one that leaves.
    pub fn remove(&mut self, key: &String) -> (r: Option<CommandOffset>)
        ensures
            final(self).entries() == removed(old(self).entries(), key@),
            final(self)@ == old(self)@.remove(key@),
            r == if old(self)@.contains_key(key@) { Some(old(self)@[key@]) } else { None },
            distinct_keys(old(self).entries()),
            distinct_keys(final(self).entries()),
    {
        let ghost before = self.entries();
        let found = self.find(key);
        proof {
            lemma_removed(before, key@);
        }
        match found {
            Some(i) => {
                proof {
                    lemma_entry_in_map(before, i as int);
                }
                let (mut entries, mut places) = self.take();
                let ghost tied_before = places@;
                let last = entries.len() - 1;
                let gone = entries.swap_remove(i);
                places.remove(key.as_str());
                if i != last {
                    places.insert(entries[i].key.clone(), i);
                }
                proof {
                    let after = entries_view(entries@);
                    assert(after =~= before.update(i as int, before.last()).drop_last());
                    assert(tied(after, places@)) by {
                        assert forall|j: int| 0 <= j < after.len() implies places@.contains_key(
                            (#[trigger] after[j]).0,
                        ) && places@[after[j].0] == j by {
                            if j != i {
                                assert(after[j] == before[j]);
                                assert(tied_before.contains_key(before[j].0));
                            } else {
                                assert(after[j] == before[last as int]);
                            }
                        }
                        assert forall|other: Seq<char>| #[trigger]
                            places@.contains_key(other) implies places@[other] < after.len()
                            && after[places@[other] as int].0 == other by {
                            if i != last && other == before[last as int].0 {
                            } else {
                                assert(tied_before.contains_key(other));
                                assert(before[tied_before[other] as int].0 == other);
                                assert(tied_before[other] != i);
                                if tied_before[other] == last {
                                    assert(before[last as int].0 == other);
                                }
                            }
                        }
                    }
                }
                *self = Index { entries, places };
                Some(gone.offset)
            },
            None => None,
        }
    }
}

} // verus!
