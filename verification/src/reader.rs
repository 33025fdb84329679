//! The pool of segment readers that one accessor of the store holds open.

use std::collections::HashMap;
use vstd::prelude::*;

verus! {

broadcast use vstd::std_specs::hash::group_hash_axioms;

/// The readers that one accessor of the store holds open: one for each
/// generation that it has read from, or that was handed to it. `R` is the
/// reader of a segment file.
pub struct KvStoreReader<R> {
    readers: HashMap<u64, R>,
}

impl<R> View for KvStoreReader<R> {
    type V = Map<u64, R>;

    closed spec fn view(&self) -> Map<u64, R> {
        self.readers@
    }
}

/// What a read through the pool does where it succeeds: `func` got the
/// reader of generation `gen` that the pool held, or else one that `open`
/// gave, and the pool holds the reader that `func` handed back.
pub open spec fn read_through<R, T, E, O, F>(
    before: Map<u64, R>,
    after: Map<u64, R>,
    gen: u64,
    open: O,
    func: F,
    out: T,
) -> bool where O: FnOnce(u64) -> Result<R, E>, F: FnOnce(R) -> (R, T) {
    exists|first: R, last: R|
        {
            &&& if before.contains_key(gen) {
                first == before[gen]
            } else {
                call_ensures(open, (gen,), Ok::<R, E>(first))
            }
            &&& #[trigger] call_ensures(func, (first,), (last, out))
            &&& after == before.insert(gen, last)
        }
}

impl<R> KvStoreReader<R> {
    /// A pool without readers.
    pub fn new() -> (r: KvStoreReader<R>)
        ensures
            r@ == Map::<u64, R>::empty(),
    {
        KvStoreReader { readers: HashMap::new() }
    }

    /// Whether a reader of generation `gen` is open.
    pub fn contains(&self, gen: u64) -> (r: bool)
        ensures
            r == self@.contains_key(gen),
    {
        self.readers.contains_key(&gen)
    }

    /// Puts `reader` in the pool as the reader of generation `gen`, in
    /// place of the one that was there.
    pub fn add_reader(&mut self, gen: u64, reader: R)
        ensures
            final(self)@ == old(self)@.insert(gen, reader),
    {
        self.readers.insert(gen, reader);
    }

    /// Drops the reader of generation `gen`, if one is open.
    pub fn remove_reader(&mut self, gen: u64)
        ensures
            final(self)@ == old(self)@.remove(gen),
    {
        self.readers.remove(&gen);
    }

    /// Reads from the segment of generation `gen`: `func` gets the reader of
    /// that generation, which `open` opens first where the pool holds none,
    /// and hands it back to the pool with what it read. Where `open` fails,
    /// its error is the result and the pool stays as it is.
    pub fn read<T, E, O, F>(&mut self, gen: u64, open: O, func: F) -> (r: Result<T, E>) where
        O: FnOnce(u64) -> Result<R, E>,
        F: FnOnce(R) -> (R, T),

        requires
            call_requires(open, (gen,)),
            forall|reader: R| call_requires(func, (reader,)),
        ensures
            match r {
                Ok(out) => read_through(old(self)@, final(self)@, gen, open, func, out),
                Err(e) => !old(self)@.contains_key(gen) && call_ensures(
                    open,
                    (gen,),
                    Err::<R, E>(e),
                ) && final(self)@ == old(self)@,
            },
    {
        let first = match self.readers.remove(&gen) {
            Some(reader) => reader,
            None => match open(gen) {
                Ok(reader) => reader,
                Err(e) => {
                    assert(self@ =~= old(self)@);
                    return Err(e);
                },
            },
        };
        let ghost taken = first;
        let (last, out) = func(first);
        let ghost given = last;
        self.readers.insert(gen, last);
        assert(self@ =~= old(self)@.insert(gen, given));
        assert(call_ensures(func, (taken,), (given, out)));
        Ok(out)
    }
}

} // verus!
