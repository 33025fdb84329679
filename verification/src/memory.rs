//! A store directory in memory, and a store that keeps its files there.

use crate::command::{encoding, Command, CommandView};
use crate::disk::{
    appended, copied, created, disk_of, files_view, lemma_disk_of, lemma_newest, record_bytes,
    size, sound, tombstones, SegmentFile,
};
use crate::entries::{
    distinct_keys, entries_map, has_key, lemma_entry_in_map, lemma_push_inserts,
    lemma_remove_removes, lemma_update_inserts, place_of,
};
use crate::error::KvsError;
use crate::index::{live_bytes, offsets_of, CommandOffset};
use crate::laws::{
    law_bounded_size, law_compaction, law_compaction_reclaims, law_index_points_at_records,
    law_lookup, law_open, law_open_empty, law_reopen, law_write,
};
use crate::model::{compacted_disk, contents, in_step, points_at_put, readable, written};
use crate::segment::{generation_of, lemma_generation_of_name, segment_file_name, segment_name};
use crate::store::{can_compact, compacted_store, opened, KvStore, StoreView};
use crate::writer::{committed, prepared, PendingWrite, WriterView, COMPACTION_THRESHOLD};
use vstd::prelude::*;

verus! {

/// One segment of a directory in memory: its generation and its content.
struct Segment {
    gen: u64,
    data: Vec<u8>,
}

/// What the contracts see of a list of segments.
spec fn segments_view(segments: Seq<Segment>) -> Seq<(u64, Seq<u8>)> {
    segments.map_values(|s: Segment| (s.gen, s.data@))
}

/// A store directory held in memory: the segments, each under its
/// generation.
pub struct Directory {
    segments: Vec<Segment>,
}

impl View for Directory {
    type V = Map<u64, Seq<u8>>;

    closed spec fn view(&self) -> Map<u64, Seq<u8>> {
        entries_map(self.segments())
    }
}

impl Directory {
    /// The segments in the order in which they are held.
    pub closed spec fn segments(&self) -> Seq<(u64, Seq<u8>)> {
        segments_view(self.segments@)
    }

    #[verifier::type_invariant]
    pub closed spec fn well_formed(&self) -> bool {
        &&& distinct_keys(self.segments())
        &&& forall|i: int| 0 <= i < self.segments().len() ==> (#[trigger] self.segments()[i]).0 >= 1
    }

    /// An empty directory: it holds no segment.
    pub fn new() -> (r: Directory)
        ensures
            r.segments() == Seq::<(u64, Seq<u8>)>::empty(),
            r@ == Map::<u64, Seq<u8>>::empty(),
    {
        let r = Directory { segments: Vec::new() };
        assert(r.segments() =~= Seq::<(u64, Seq<u8>)>::empty());
        assert(r@ =~= Map::<u64, Seq<u8>>::empty());
        r
    }

    /// The place of the segment of generation `gen`.
    fn find(&self, gen: u64) -> (r: Option<usize>)
        ensures
            match r {
                Some(i) => i < self.segments().len() && self.segments()[i as int].0 == gen
                    && place_of(self.segments(), gen) == i && self@.contains_key(gen) && self@[gen]
                    == self.segments()[i as int].1,
                None => !self@.contains_key(gen),
            },
            distinct_keys(self.segments()),
            sound(self@),
    {
        proof {
            use_type_invariant(self);
            lemma_segments_sound(self.segments@);
        }
        let mut i: usize = 0;
        while i < self.segments.len()
            invariant
                i <= self.segments.len(),
                distinct_keys(self.segments()),
                sound(self@),
                forall|j: int| 0 <= j < i ==> (#[trigger] self.segments()[j]).0 != gen,
            decreases self.segments.len() - i,
        {
            if self.segments[i].gen == gen {
                proof {
                    lemma_entry_in_map(self.segments(), i as int);
                }
                return Some(i);
            }
            i += 1;
        }
        None
    }

    /// Whether the directory holds a segment of generation `gen`.
    pub fn contains(&self, gen: u64) -> (r: bool)
        ensures
            r == self@.contains_key(gen),
            sound(self@),
    {
        self.find(gen).is_some()
    }

    /// The number of segments.
    pub fn len(&self) -> (r: usize)
        ensures
            r == self.segments().len(),
    {
        self.segments.len()
    }

    /// The length of the segment of generation `gen`, if there is one.
    pub fn segment_len(&self, gen: u64) -> (r: Option<usize>)
        ensures
            match r {
                Some(n) => self@.contains_key(gen) && n == self@[gen].len(),
                None => !self@.contains_key(gen),
            },
    {
        match self.find(gen) {
            Some(i) => Some(self.segments[i].data.len()),
            None => None,
        }
    }

    /// The bytes at the place `at`; `None` where the place does not lie
    /// inside a segment of the directory.
    pub fn read(&self, at: CommandOffset) -> (r: Option<Vec<u8>>)
        ensures
            match r {
                Some(bytes) => self@.contains_key(at.gen) && at.pos + at.len <= self@[at.gen].len()
                    && bytes@ == record_bytes(self@, at),
                None => !(self@.contains_key(at.gen) && at.pos + at.len <= self@[at.gen].len()),
            },
    {
        let i = match self.find(at.gen) {
            Some(i) => i,
            None => {
                return None;
            },
        };
        let data = &self.segments[i].data;
        let n = data.len() as u64;
        if at.pos > n || at.len > n - at.pos {
            return None;
        }
        let mut bytes: Vec<u8> = Vec::new();
        let start = at.pos as usize;
        let end = (at.pos + at.len) as usize;
        let mut j: usize = start;
        while j < end
            invariant
                start <= j <= end <= data.len(),
                bytes@ == data@.subrange(start as int, j as int),
            decreases end - j,
        {
            bytes.push(data[j]);
            assert(bytes@ =~= data@.subrange(start as int, j + 1));
            j += 1;
        }
        Some(bytes)
    }

    /// Takes the segments out of the directory, which is left empty.
    fn take(&mut self) -> (r: Vec<Segment>)
        ensures
            segments_view(r@) == old(self).segments(),
            distinct_keys(old(self).segments()),
            forall|i: int|
                0 <= i < old(self).segments().len() ==> (#[trigger] old(self).segments()[i]).0 >= 1,
    {
        proof {
            use_type_invariant(&*self);
        }
        let mut whole = Directory::new();
        std::mem::swap(self, &mut whole);
        whole.segments
    }

    /// Creates an empty segment of generation `gen`, unless `gen` is 0 or
    /// the directory holds a segment of that generation. Returns whether it
    /// did.
    pub fn create(&mut self, gen: u64) -> (r: bool)
        ensures
            r == (gen >= 1 && !old(self)@.contains_key(gen)),
            r ==> final(self)@ == created(old(self)@, gen),
            !r ==> final(self)@ == old(self)@,
    {
        if gen == 0 || self.find(gen).is_some() {
            return false;
        }
        let ghost before = self.segments();
        let mut segments = self.take();
        segments.push(Segment { gen, data: Vec::new() });
        proof {
            let after = segments_view(segments@);
            assert(after =~= before.push((gen, Seq::<u8>::empty())));
            lemma_push_inserts(before, gen, Seq::<u8>::empty());
            assert forall|i: int| 0 <= i < after.len() implies (#[trigger] after[i]).0 >= 1 by {
                if i < before.len() {
                    assert(after[i] == before[i]);
                }
            }
        }
        *self = Directory { segments };
        true
    }

    /// Puts `data` in the directory as the segment of generation `gen`, in
    /// place of the one that was there. Nothing happens where `gen` is 0.
    pub fn put(&mut self, gen: u64, data: Vec<u8>)
        ensures
            gen >= 1 ==> final(self)@ == old(self)@.insert(gen, data@),
            gen == 0 ==> final(self)@ == old(self)@,
    {
        if gen == 0 {
            return ;
        }
        let found = self.find(gen);
        let ghost before = self.segments();
        let ghost content = data@;
        let mut segments = self.take();
        match found {
            Some(i) => {
                segments[i] = Segment { gen, data };
                proof {
                    let after = segments_view(segments@);
                    assert(after =~= before.update(i as int, (gen, content)));
                    lemma_update_inserts(before, i as int, content);
                    assert forall|j: int| 0 <= j < after.len() implies (#[trigger] after[j]).0
                        >= 1 by {
                        if j != i {
                            assert(after[j] == before[j]);
                        }
                    }
                }
            },
            None => {
                segments.push(Segment { gen, data });
                proof {
                    let after = segments_view(segments@);
                    assert(after =~= before.push((gen, content)));
                    lemma_push_inserts(before, gen, content);
                    assert forall|j: int| 0 <= j < after.len() implies (#[trigger] after[j]).0
                        >= 1 by {
                        if j < before.len() {
                            assert(after[j] == before[j]);
                        }
                    }
                }
            },
        }
        *self = Directory { segments };
    }

    /// Appends `bytes` to the segment of generation `gen`. Returns whether
    /// the directory holds that segment; nothing happens where it does not.
    pub fn append(&mut self, gen: u64, bytes: &[u8]) -> (r: bool)
        ensures
            r == old(self)@.contains_key(gen),
            r ==> final(self)@ == appended(old(self)@, gen, bytes@),
            !r ==> final(self)@ == old(self)@,
    {
        let i = match self.find(gen) {
            Some(i) => i,
            None => {
                return false;
            },
        };
        let ghost before = self.segments();
        let mut segments = self.take();
        let mut segment = segments.swap_remove(i);
        let ghost content = segment.data@;
        let mut j: usize = 0;
        while j < bytes.len()
            invariant
                j <= bytes.len(),
                segment.gen == gen,
                segment.data@ == content + bytes@.subrange(0, j as int),
            decreases bytes.len() - j,
        {
            segment.data.push(bytes[j]);
            assert(segment.data@ =~= content + bytes@.subrange(0, j + 1));
            j += 1;
        }
        proof {
            assert(bytes@.subrange(0, bytes.len() as int) =~= bytes@);
            lemma_remove_removes(before, i as int);
            let rest = segments_view(segments@);
            assert(rest =~= before.update(i as int, before.last()).drop_last());
            assert(!has_key(rest, gen)) by {
                if has_key(rest, gen) {
                    assert(entries_map(rest).contains_key(gen));
                }
            }
            lemma_push_inserts(rest, gen, content + bytes@);
            assert(entries_map(rest).insert(gen, content + bytes@) =~= entries_map(before).insert(
                gen,
                content + bytes@,
            ));
            assert forall|k: int| 0 <= k < rest.len() implies (#[trigger] rest[k]).0 >= 1 by {
                if k == i {
                    assert(rest[k] == before[before.len() - 1]);
                } else {
                    assert(rest[k] == before[k]);
                }
            }
        }
        segments.push(segment);
        proof {
            let rest = before.update(i as int, before.last()).drop_last();
            let after = segments_view(segments@);
            assert(after =~= rest.push((gen, content + bytes@)));
            assert forall|k: int| 0 <= k < after.len() implies (#[trigger] after[k]).0 >= 1 by {
                if k < rest.len() {
                    assert(after[k] == rest[k]);
                }
            }
        }
        *self = Directory { segments };
        true
    }

    /// Removes the segments of the generations up to `upto`.
    pub fn retire(&mut self, upto: u64)
        ensures
            final(self)@ == old(self)@.remove_keys(Set::new(|gen: u64| gen <= upto)),
    {
        let ghost before = self.segments();
        let mut segments = self.take();
        let mut kept: Vec<Segment> = Vec::new();
        assert(segments_view(kept@) =~= Seq::<(u64, Seq<u8>)>::empty());
        while segments.len() > 0
            invariant
                distinct_keys(before),
                forall|i: int| 0 <= i < before.len() ==> (#[trigger] before[i]).0 >= 1,
                segments.len() <= before.len(),
                segments_view(segments@) == before.subrange(0, segments.len() as int),
                kept_of(segments_view(kept@), before, segments.len() as int, upto),
                distinct_keys(segments_view(kept@)),
            decreases segments.len(),
        {
            let ghost so_far = segments_view(kept@);
            let ghost m = segments.len() - 1;
            let segment = segments.pop().unwrap();
            proof {
                assert(segments_view(segments@) =~= before.subrange(0, m));
                assert((segment.gen, segment.data@) == before.subrange(0, m + 1)[m]);
            }
            if segment.gen > upto {
                kept.push(segment);
                proof {
                    let now = segments_view(kept@);
                    assert(now =~= so_far.push(before[m]));
                    assert(!has_key(so_far, before[m].0)) by {
                        if has_key(so_far, before[m].0) {
                            let k = place_of(so_far, before[m].0);
                            assert(from_behind(so_far[k], before, m + 1, upto));
                            let j = choose|j: int|
                                m + 1 <= j < before.len() && so_far[k] == before[j];
                            assert(before[j].0 == before[m].0);
                        }
                    }
                    lemma_push_inserts(so_far, before[m].0, before[m].1);
                    assert(kept_of(now, before, m, upto)) by {
                        assert forall|k: int| 0 <= k < now.len() implies from_behind(
                            #[trigger] now[k],
                            before,
                            m,
                            upto,
                        ) by {
                            if k < so_far.len() {
                                assert(from_behind(so_far[k], before, m + 1, upto));
                                let j = choose|j: int|
                                    m + 1 <= j < before.len() && so_far[k] == before[j];
                                assert(now[k] == before[j]);
                            } else {
                                assert(now[k] == before[m]);
                            }
                        }
                        assert forall|j: int|
                            m <= j < before.len() && (#[trigger] before[j]).0
                                > upto implies now.contains(before[j]) by {
                            if j == m {
                                assert(now[now.len() - 1] == before[j]);
                            } else {
                                assert(so_far.contains(before[j]));
                                let k = choose|k: int|
                                    0 <= k < so_far.len() && so_far[k] == before[j];
                                assert(now[k] == before[j]);
                            }
                        }
                    }
                }
            } else {
                proof {
                    assert(kept_of(so_far, before, m, upto)) by {
                        assert forall|k: int| 0 <= k < so_far.len() implies from_behind(
                            #[trigger] so_far[k],
                            before,
                            m,
                            upto,
                        ) by {
                            assert(from_behind(so_far[k], before, m + 1, upto));
                            let j = choose|j: int|
                                m + 1 <= j < before.len() && so_far[k] == before[j];
                            assert(so_far[k] == before[j]);
                        }
                    }
                }
            }
        }
        proof {
            lemma_kept(segments_view(kept@), before, upto);
        }
        *self = Directory { segments: kept };
    }

    /// The generations of the segments, in the order in which they are held.
    pub fn generations(&self) -> (r: Vec<u64>)
        ensures
            r@.len() == self.segments().len(),
            forall|i: int| 0 <= i < r@.len() ==> r@[i] == (#[trigger] self.segments()[i]).0,
            forall|gen: u64| r@.contains(gen) <==> self@.contains_key(gen),
    {
        let mut r: Vec<u64> = Vec::new();
        let mut i: usize = 0;
        while i < self.segments.len()
            invariant
                i <= self.segments.len(),
                r@.len() == i,
                forall|j: int| 0 <= j < i ==> r@[j] == (#[trigger] self.segments()[j]).0,
            decreases self.segments.len() - i,
        {
            r.push(self.segments[i].gen);
            i += 1;
        }
        proof {
            assert forall|gen: u64| r@.contains(gen) <==> self@.contains_key(gen) by {
                if r@.contains(gen) {
                    let j = choose|j: int| 0 <= j < r@.len() && r@[j] == gen;
                    assert(self.segments()[j].0 == gen);
                }
                if self@.contains_key(gen) {
                    let j = place_of(self.segments(), gen);
                    assert(r@[j] == gen);
                }
            }
        }
        r
    }

    /// The segments as files, each under the name of its generation.
    pub fn files(&self) -> (r: Vec<SegmentFile>)
        ensures
            disk_of(files_view(r@)) == self@,
            sound(self@),
    {
        proof {
            use_type_invariant(self);
            lemma_segments_sound(self.segments@);
        }
        let mut r: Vec<SegmentFile> = Vec::new();
        let mut i: usize = 0;
        while i < self.segments.len()
            invariant
                i <= self.segments.len(),
                r@.len() == i,
                forall|j: int|
                    0 <= j < i ==> (#[trigger] r@[j])@ == (
                        segment_name(self.segments()[j].0),
                        self.segments()[j].1,
                    ),
            decreases self.segments.len() - i,
        {
            r.push(
                SegmentFile {
                    name: segment_file_name(self.segments[i].gen),
                    data: self.segments[i].data.clone(),
                },
            );
            i += 1;
        }
        proof {
            let files = files_view(r@);
            let segments = self.segments();
            assert forall|j: int| 0 <= j < files.len() implies generation_of(
                (#[trigger] files[j]).0,
            ) == Some(segments[j].0) && files[j].1 == segments[j].1 by {
                assert(r@[j]@ == (segment_name(segments[j].0), segments[j].1));
                lemma_generation_of_name(segments[j].0);
            }
            lemma_disk_of(files);
            assert forall|gen: u64|
                disk_of(files).contains_key(gen) <==> #[trigger] self@.contains_key(gen) by {
                if disk_of(files).contains_key(gen) {
                    let j = choose|j: int|
                        0 <= j < files.len() && generation_of(#[trigger] files[j].0) == Some(gen);
                    assert(segments[j].0 == gen);
                }
                if self@.contains_key(gen) {
                    let j = place_of(segments, gen);
                    assert(generation_of(files[j].0) == Some(gen));
                }
            }
            assert forall|gen: u64| #[trigger] self@.contains_key(gen) implies disk_of(files)[gen]
                == self@[gen] by {
                let j = place_of(segments, gen);
                assert(generation_of(files[j].0) == Some(gen));
                assert forall|l: int| j < l < files.len() implies generation_of(
                    #[trigger] files[l].0,
                ) != generation_of(files[j].0) by {
                    assert(segments[l].0 != segments[j].0);
                }
                assert(disk_of(files)[generation_of(files[j].0).unwrap()] == files[j].1);
            }
            assert(disk_of(files) =~= self@);
        }
        r
    }
}

/// Segments that are held in memory, none of them of generation 0, are
/// sound.
proof fn lemma_segments_sound(segments: Seq<Segment>)
    requires
        forall|i: int|
            0 <= i < segments.len() ==> (#[trigger] segments_view(segments)[i]).0 >= 1,
    ensures
        sound(entries_map(segments_view(segments))),
{
    let views = segments_view(segments);
    assert forall|gen: u64| #[trigger] entries_map(views).contains_key(gen) implies gen != 0
        && entries_map(views)[gen].len() <= u64::MAX by {
        let i = place_of(views, gen);
        assert(views[i].0 >= 1);
        assert(views[i].1 == segments[i].data@);
        assert(segments[i].data.len() <= usize::MAX);
    }
}

/// The entry `kept` is one of the entries of `before` from place `m` on,
/// and its key is greater than `upto`.
spec fn from_behind(kept: (u64, Seq<u8>), before: Seq<(u64, Seq<u8>)>, m: int, upto: u64) -> bool {
    kept.0 > upto && exists|j: int| m <= j < before.len() && kept == before[j]
}

/// The entries `kept` are those of the entries of `before` from place `m`
/// on whose keys are greater than `upto`.
spec fn kept_of(
    kept: Seq<(u64, Seq<u8>)>,
    before: Seq<(u64, Seq<u8>)>,
    m: int,
    upto: u64,
) -> bool {
    &&& forall|k: int| 0 <= k < kept.len() ==> from_behind(#[trigger] kept[k], before, m, upto)
    &&& forall|j: int|
        m <= j < before.len() && (#[trigger] before[j]).0 > upto ==> kept.contains(before[j])
}

/// Entries that are kept of all the entries stand for the mapping without
/// the keys up to `upto`; their keys are distinct where they were.
proof fn lemma_kept(kept: Seq<(u64, Seq<u8>)>, before: Seq<(u64, Seq<u8>)>, upto: u64)
    requires
        distinct_keys(before),
        kept_of(kept, before, 0, upto),
        forall|i: int| 0 <= i < before.len() ==> (#[trigger] before[i]).0 >= 1,
    ensures
        entries_map(kept) == entries_map(before).remove_keys(Set::new(|gen: u64| gen <= upto)),
        forall|i: int| 0 <= i < kept.len() ==> (#[trigger] kept[i]).0 >= 1,
{
    let gone = Set::new(|gen: u64| gen <= upto);
    assert forall|i: int| 0 <= i < kept.len() implies (#[trigger] kept[i]).0 >= 1 by {
        assert(from_behind(kept[i], before, 0, upto));
    }
    assert forall|gen: u64| #[trigger]
        entries_map(kept).contains_key(gen) <==> entries_map(before).remove_keys(
            gone,
        ).contains_key(gen) by {
        if entries_map(kept).contains_key(gen) {
            let k = place_of(kept, gen);
            assert(from_behind(kept[k], before, 0, upto));
            let j = choose|j: int| 0 <= j < before.len() && kept[k] == before[j];
            assert(before[j].0 == gen);
        }
        if entries_map(before).remove_keys(gone).contains_key(gen) {
            let j = place_of(before, gen);
            assert(before[j].0 > upto);
            assert(kept.contains(before[j]));
            let k = choose|k: int| 0 <= k < kept.len() && kept[k] == before[j];
            assert(kept[k].0 == gen);
        }
    }
    assert forall|gen: u64| #[trigger] entries_map(kept).contains_key(gen) implies entries_map(
        kept,
    )[gen] == entries_map(before).remove_keys(gone)[gen] by {
        let k = place_of(kept, gen);
        assert(from_behind(kept[k], before, 0, upto));
        let j = choose|j: int| 0 <= j < before.len() && kept[k] == before[j];
        lemma_entry_in_map(before, j);
    }
    assert(entries_map(kept) =~= entries_map(before).remove_keys(gone));
}

/// A store together with its directory, both in memory. What the store
/// does to its files it does to the directory, so that every operation is
/// whole: it reads and writes by itself, and store and directory are always
/// in step.
pub struct MemoryStore {
    store: KvStore,
    dir: Directory,
}

impl MemoryStore {
    /// The store.
    pub closed spec fn store_view(&self) -> StoreView {
        self.store@
    }

    /// The segments of the directory.
    pub closed spec fn disk(&self) -> Map<u64, Seq<u8>> {
        self.dir@
    }

    /// The mapping from keys to values that the store holds.
    pub open spec fn contents(&self) -> Map<Seq<char>, Seq<char>> {
        contents(self.store_view(), self.disk())
    }

    #[verifier::type_invariant]
    pub open spec fn well_formed(&self) -> bool {
        in_step(self.store_view(), self.disk())
    }

    /// Opens the store on the directory `dir`, and creates its active
    /// segment there. Fails as `KvStore::open` does.
    pub fn open(dir: Directory) -> (r: Result<MemoryStore, KvsError>)
        ensures
            match opened(dir@) {
                Ok(s) => r is Ok && r->Ok_0.store_view() == s && r->Ok_0.disk() == created(
                    dir@,
                    s.writer.current_gen,
                ) && r->Ok_0.contents() == contents(s, dir@),
                Err(e) => r is Err && r->Err_0 == e,
            },
    {
        let files = dir.files();
        let store = KvStore::open(&files)?;
        let mut dir = dir;
        proof {
            law_open(dir@);
            lemma_newest(dir@, u64::MAX as nat);
        }
        dir.create(store.current_gen());
        Ok(MemoryStore { store, dir })
    }

    /// A store on an empty directory.
    pub fn new() -> (r: MemoryStore)
        ensures
            r.contents() == Map::<Seq<char>, Seq<char>>::empty(),
            r.store_view() == (StoreView {
                entries: Seq::empty(),
                writer: WriterView { current_gen: 1, pos: 0, uncompacted: 0 },
            }),
            r.disk() == created(Map::empty(), 1),
    {
        proof {
            law_open_empty();
        }
        match MemoryStore::open(Directory::new()) {
            Ok(store) => store,
            Err(_) => unreached(),
        }
    }

    /// Closes the store and gives back its directory.
    pub fn close(self) -> (r: Directory)
        ensures
            r@ == self.disk(),
            in_step(self.store_view(), self.disk()),
    {
        proof {
            use_type_invariant(&self);
        }
        self.dir
    }

    /// Closes the store and opens it again on its directory. The store that
    /// opens holds what the store held, and counts the same bytes as stale.
    /// Fails with `Overflow` where the active generation was the last one.
    pub fn reopen(self) -> (r: Result<MemoryStore, KvsError>)
        ensures
            self.store_view().writer.current_gen < u64::MAX ==> r is Ok && r->Ok_0.contents()
                == self.contents() && r->Ok_0.store_view().entries == self.store_view().entries
                && r->Ok_0.store_view().writer.current_gen == self.store_view().writer.current_gen
                + 1 && r->Ok_0.store_view().writer.uncompacted
                == self.store_view().writer.uncompacted,
            self.store_view().writer.current_gen == u64::MAX ==> r is Err && r->Err_0
                == KvsError::Overflow,
    {
        proof {
            use_type_invariant(&self);
            if self.store@.writer.current_gen < u64::MAX {
                law_reopen(self.store@, self.dir@);
            }
        }
        MemoryStore::open(self.dir)
    }

    /// The store.
    pub fn store(&self) -> (r: &KvStore)
        ensures
            r@ == self.store_view(),
            in_step(self.store_view(), self.disk()),
    {
        proof {
            use_type_invariant(self);
        }
        &self.store
    }

    /// The directory.
    pub fn directory(&self) -> (r: &Directory)
        ensures
            r@ == self.disk(),
            in_step(self.store_view(), self.disk()),
    {
        proof {
            use_type_invariant(self);
        }
        &self.dir
    }

    /// The value of `key`, if the key is live.
    pub fn get(&self, key: &String) -> (r: Result<Option<String>, KvsError>)
        ensures
            match r {
                Ok(Some(value)) => self.contents().contains_key(key@) && self.contents()[key@]
                    == value@,
                Ok(None) => !self.contents().contains_key(key@),
                Err(_) => false,
            },
    {
        proof {
            use_type_invariant(self);
            law_lookup(self.store@, self.dir@, key@);
            law_index_points_at_records(self.store@, self.dir@);
        }
        match self.store.locate(key) {
            None => Ok(None),
            Some(at) => match self.dir.read(at) {
                Some(bytes) => match KvStore::read_value(bytes.as_slice()) {
                    Ok(value) => Ok(Some(value)),
                    Err(_) => unreached(),
                },
                None => unreached(),
            },
        }
    }

    /// Takes the store and the directory out, and leaves an empty store.
    fn take(&mut self) -> (r: (KvStore, Directory))
        ensures
            r.0@ == old(self).store_view(),
            r.1@ == old(self).disk(),
            in_step(old(self).store_view(), old(self).disk()),
    {
        proof {
            use_type_invariant(&*self);
        }
        let mut whole = MemoryStore::new();
        std::mem::swap(self, &mut whole);
        (whole.store, whole.dir)
    }

    /// Appends the record of a prepared write to the active segment and
    /// commits the write; then compacts, where compaction is due.
    fn write(&mut self, write: PendingWrite) -> (r: Result<(), KvsError>)
        requires
            prepared(old(self).store_view().writer, write.command_view()) == Ok::<
                CommandOffset,
                KvsError,
            >(write.at()),
            write.bytes_view() == encoding(write.command_view()),
        ensures
            result_of_write(
                old(self).store_view(),
                old(self).disk(),
                write.command_view(),
                final(self).store_view(),
                final(self).disk(),
                r,
            ),
    {
        proof {
            use_type_invariant(&*self);
        }
        let ghost s = self.store@;
        let ghost d = self.dir@;
        let ghost command = write.command_view();
        let live = match write.command() {
            Command::Put { key, value } => self.store.locate(key),
            Command::Remove { key } => self.store.locate(key),
        };
        let stale: u64 = match live {
            Some(at) => at.len,
            None => 0,
        };
        if stale > u64::MAX - self.store.uncompacted() {
            return Err(KvsError::Overflow);
        }
        let (mut store, mut dir) = self.take();
        dir.append(store.current_gen(), write.bytes().as_slice());
        let due = match store.commit(write) {
            Ok(due) => due,
            Err(_) => unreached(),
        };
        proof {
            law_write(s, d, command);
        }
        *self = MemoryStore { store, dir };
        if due {
            self.compact()
        } else {
            Ok(())
        }
    }

    /// Gives `key` the value `value`, and compacts the log where that brings
    /// the stale bytes to the threshold, so that the directory stays small.
    /// Fails with `Serde` where the key or the value is not storable, with
    /// `Overflow` where an offset, the count of stale bytes or the
    /// generation would leave the 64-bit range; the write has taken place
    /// where only the compaction behind it failed.
    pub fn set(&mut self, key: String, value: String) -> (r: Result<(), KvsError>)
        ensures
            result_of_write(
                old(self).store_view(),
                old(self).disk(),
                CommandView::Put { key: key@, value: value@ },
                final(self).store_view(),
                final(self).disk(),
                r,
            ),
            r is Ok ==> final(self).contents() == old(self).contents().insert(key@, value@),
            r is Err ==> final(self).contents() == old(self).contents() || final(self).contents()
                == old(self).contents().insert(key@, value@),
            r is Ok ==> kept_small(final(self).store_view(), final(self).disk()),
    {
        proof {
            use_type_invariant(&*self);
            lemma_result_of_write(
                self.store@,
                self.dir@,
                CommandView::Put { key: key@, value: value@ },
            );
        }
        let r = match self.store.set(key, value) {
            Ok(write) => self.write(write),
            Err(e) => Err(e),
        };
        proof {
            use_type_invariant(&*self);
            if r is Ok {
                law_bounded_size(self.store@, self.dir@);
            }
        }
        r
    }

    /// Removes `key`. Fails with `KeyNotFound`, and changes nothing, where
    /// the key is not live; otherwise as `set` does.
    pub fn remove(&mut self, key: String) -> (r: Result<(), KvsError>)
        ensures
            !old(self).contents().contains_key(key@) ==> r == Err::<(), KvsError>(
                KvsError::KeyNotFound,
            ) && final(self).store_view() == old(self).store_view() && final(self).disk() == old(
                self,
            ).disk(),
            old(self).contents().contains_key(key@) ==> result_of_write(
                old(self).store_view(),
                old(self).disk(),
                CommandView::Remove { key: key@ },
                final(self).store_view(),
                final(self).disk(),
                r,
            ),
            r is Ok ==> final(self).contents() == old(self).contents().remove(key@),
            r is Err ==> final(self).contents() == old(self).contents() || final(self).contents()
                == old(self).contents().remove(key@),
            r is Ok ==> kept_small(final(self).store_view(), final(self).disk()),
    {
        proof {
            use_type_invariant(&*self);
            lemma_result_of_write(self.store@, self.dir@, CommandView::Remove { key: key@ });
        }
        let r = match self.store.remove(key) {
            Ok(write) => self.write(write),
            Err(e) => Err(e),
        };
        proof {
            use_type_invariant(&*self);
            if r is Ok {
                law_bounded_size(self.store@, self.dir@);
            }
        }
        r
    }

    /// Compacts the log: the live records are copied into a fresh segment,
    /// a fresh active segment is created, and the older segments go. What
    /// the store holds stays as it is. Fails with `Overflow`, and changes
    /// nothing, where no compaction can be planned.
    pub fn compact(&mut self) -> (r: Result<(), KvsError>)
        ensures
            can_compact(old(self).store_view()) ==> r is Ok && final(self).store_view()
                == compacted_store(old(self).store_view()) && final(self).disk() == compacted_disk(
                old(self).store_view(),
                old(self).disk(),
            ),
            !can_compact(old(self).store_view()) ==> r == Err::<(), KvsError>(KvsError::Overflow)
                && final(self).store_view() == old(self).store_view() && final(self).disk() == old(
                self,
            ).disk(),
            final(self).contents() == old(self).contents(),
            r is Ok ==> size(final(self).disk()) == live_bytes(final(self).store_view().entries)
                && final(self).store_view().writer.uncompacted == 0,
    {
        proof {
            use_type_invariant(&*self);
        }
        let ghost s = self.store@;
        let ghost d = self.dir@;
        let plan = self.store.compact()?;
        proof {
            law_index_points_at_records(s, d);
            law_compaction(s, d);
            law_compaction_reclaims(s, d);
        }
        let mut copy: Vec<u8> = Vec::new();
        let mut i: usize = 0;
        while i < plan.copies().len()
            invariant
                i <= plan.copies_view().len(),
                plan.copies_view() == offsets_of(s.entries),
                readable(s.entries, d),
                self.dir@ == d,
                copy@ == copied(d, plan.copies_view(), i as int),
            decreases plan.copies_view().len() - i,
        {
            let at = plan.copies()[i];
            proof {
                assert(points_at_put(d, s.entries[i as int].0, s.entries[i as int].1));
            }
            let mut bytes = match self.dir.read(at) {
                Some(bytes) => bytes,
                None => unreached(),
            };
            copy.append(&mut bytes);
            i += 1;
        }
        let (mut store, mut dir) = self.take();
        dir.put(plan.compact_gen(), copy);
        dir.put(plan.active_gen(), Vec::new());
        match store.install(&plan) {
            Ok(_) => {},
            Err(_) => unreached(),
        }
        dir.retire(plan.active_gen() - 2);
        proof {
            assert(dir@ =~= compacted_disk(s, d));
        }
        *self = MemoryStore { store, dir };
        Ok(())
    }
}

/// The directory is small: less than the threshold is stale, and the
/// segments take together less than the live records, the `Remove` records
/// and the threshold.
pub open spec fn kept_small(s: StoreView, disk: Map<u64, Seq<u8>>) -> bool {
    &&& s.writer.uncompacted < COMPACTION_THRESHOLD
    &&& size(disk) < live_bytes(s.entries) + tombstones(disk) + COMPACTION_THRESHOLD
}

/// What a write gives: where it cannot be prepared or committed, the error
/// and the store as it was; else the store and the disk after the write, and
/// after a compaction where one is due and can be planned, and `Overflow`
/// where one is due and cannot be planned.
pub open spec fn result_of_write(
    s: StoreView,
    disk: Map<u64, Seq<u8>>,
    command: CommandView,
    after: StoreView,
    after_disk: Map<u64, Seq<u8>>,
    r: Result<(), KvsError>,
) -> bool {
    match prepared(s.writer, command) {
        Err(e) => r == Err::<(), KvsError>(e) && after == s && after_disk == disk,
        Ok(at) => match committed(s.entries, s.writer, command, at) {
            Err(e) => r == Err::<(), KvsError>(e) && after == s && after_disk == disk,
            Ok((entries, writer)) => {
                let next = StoreView { entries, writer };
                let longer = appended(disk, s.writer.current_gen, encoding(command));
                if writer.uncompacted < COMPACTION_THRESHOLD {
                    r is Ok && after == next && after_disk == longer
                } else if can_compact(next) {
                    r is Ok && after == compacted_store(next) && after_disk == compacted_disk(
                        next,
                        longer,
                    )
                } else {
                    r == Err::<(), KvsError>(KvsError::Overflow) && after == next && after_disk
                        == longer
                }
            },
        },
    }
}

/// What a write gives leaves the mapping from keys to values as the command
/// says where the write took place, and as it was where it did not.
proof fn lemma_result_of_write(s: StoreView, disk: Map<u64, Seq<u8>>, command: CommandView)
    requires
        in_step(s, disk),
    ensures
        forall|after: StoreView, after_disk: Map<u64, Seq<u8>>, r: Result<(), KvsError>|
            #[trigger] result_of_write(s, disk, command, after, after_disk, r) ==> {
                &&& r is Ok ==> written(s, disk, command) is Some
                &&& written(s, disk, command) is None ==> contents(after, after_disk) == contents(
                    s,
                    disk,
                )
                &&& written(s, disk, command) is Some ==> contents(after, after_disk) == contents(
                    written(s, disk, command).unwrap().0,
                    written(s, disk, command).unwrap().1,
                )
            },
        written(s, disk, command) is Some ==> contents(
            written(s, disk, command).unwrap().0,
            written(s, disk, command).unwrap().1,
        ) == match command {
            CommandView::Put { key, value } => contents(s, disk).insert(key, value),
            CommandView::Remove { key } => contents(s, disk).remove(key),
        },
{
    if written(s, disk, command) is Some {
        law_write(s, disk, command);
        let (next, longer) = written(s, disk, command).unwrap();
        if can_compact(next) {
            law_compaction(next, longer);
        }
    }
}

} // verus!
