//! The iteration capability: any component that yields entries in strictly
//! ascending key order, and a vector-backed source implementing it.

use vstd::prelude::*;
use crate::key::KeySlice;
use crate::key::lex_lt;

verus! {

/// Error taxonomy of the read path.
#[derive(Clone, Copy, Debug, PartialEq, Eq, Structural)]
pub enum IterationError {
    /// An underlying source failed irrecoverably (e.g. corrupt backing data).
    SourceFailure,
    /// `next` was called on an iterator that is latched in its errored state,
    /// or that signalled exhaustion.
    NotValid,
}

/// An entry sequence in strictly ascending key order with no duplicate keys.
pub open spec fn strictly_ascending(s: Seq<(Seq<u8>, Seq<u8>)>) -> bool {
    forall|i: int, j: int| 0 <= i < j < s.len() ==> lex_lt(s[i].0, s[j].0)
}

/// The iteration capability consumed and exposed throughout: entries come in
/// strictly ascending key order, with no duplicate keys from one source alone.
///
/// `remaining()` models the entries not yet consumed; the first one is the
/// current entry. `inv()` is the implementation's well-formedness condition,
/// required by every operation and preserved by `next`.
pub trait StorageIterator: Sized {
    /// Well-formedness of the iterator's state.
    spec fn inv(&self) -> bool;

    /// The entries not yet consumed; the first is the current entry.
    spec fn remaining(&self) -> Seq<(Seq<u8>, Seq<u8>)>;

    /// True iff a current entry exists.
    fn is_valid(&self) -> (r: bool)
        requires
            self.inv(),
        ensures
            r == (self.remaining().len() != 0),
    ;

    /// The current entry's key, as a borrowed view.
    fn key(&self) -> (k: KeySlice<'_>)
        requires
            self.inv(),
            self.remaining().len() != 0,
        ensures
            k@ == self.remaining()[0].0,
    ;

    /// The current entry's value bytes.
    fn value(&self) -> (v: &[u8])
        requires
            self.inv(),
            self.remaining().len() != 0,
        ensures
            v@ == self.remaining()[0].1,
    ;

    /// Advances past the current entry. On success the first remaining entry
    /// is consumed; an exhausted iterator stays exhausted. On failure nothing
    /// is promised beyond well-formedness.
    fn next(&mut self) -> (r: Result<(), IterationError>)
        requires
            old(self).inv(),
        ensures
            final(self).inv(),
            r is Ok && old(self).remaining().len() != 0 ==> final(self).remaining()
                == old(self).remaining().drop_first(),
            r is Ok && old(self).remaining().len() == 0 ==> final(self).remaining()
                == old(self).remaining(),
    ;
}

/// A source over an owned, sorted run of entries, e.g. the frozen contents of
/// a memtable. Can be constructed to fail at a chosen position, standing in
/// for a source with corrupt backing data.
pub struct VecIterator {
    entries: Vec<(Vec<u8>, Vec<u8>)>,
    pos: usize,
    fail_at: Option<usize>,
}

impl VecIterator {
    /// All entries this source was created over.
    pub closed spec fn full(self) -> Seq<(Seq<u8>, Seq<u8>)> {
        self.entries@.map_values(|e: (Vec<u8>, Vec<u8>)| (e.0@, e.1@))
    }

    /// How many entries have been consumed.
    pub closed spec fn position(self) -> int {
        self.pos as int
    }

    /// The position whose `next` call reports a failure, if any.
    pub closed spec fn fail_pos(self) -> Option<int> {
        match self.fail_at {
            Some(p) => Some(p as int),
            None => None,
        }
    }

    /// A source over `entries`, positioned at the first one.
    pub fn new(entries: Vec<(Vec<u8>, Vec<u8>)>) -> (r: VecIterator)
        ensures
            r.inv(),
            r.remaining() == entries@.map_values(|e: (Vec<u8>, Vec<u8>)| (e.0@, e.1@)),
            r.fail_pos() is None,
    {
        let r = VecIterator { entries, pos: 0, fail_at: None };
        proof {
            assert(r.full().skip(0) =~= r.full());
        }
        r
    }

    /// A source over `entries` whose advance out of position `fail_at`
    /// reports a failure instead of moving.
    pub fn failing(entries: Vec<(Vec<u8>, Vec<u8>)>, fail_at: usize) -> (r: VecIterator)
        ensures
            r.inv(),
            r.remaining() == entries@.map_values(|e: (Vec<u8>, Vec<u8>)| (e.0@, e.1@)),
            r.fail_pos() == Some(fail_at as int),
    {
        let r = VecIterator { entries, pos: 0, fail_at: Some(fail_at) };
        proof {
            assert(r.full().skip(0) =~= r.full());
        }
        r
    }
}

impl StorageIterator for VecIterator {
    closed spec fn inv(&self) -> bool {
        self.pos <= self.entries@.len()
    }

    closed spec fn remaining(&self) -> Seq<(Seq<u8>, Seq<u8>)> {
        self.full().skip(self.pos as int)
    }

    fn is_valid(&self) -> (r: bool) {
        self.pos < self.entries.len()
    }

    fn key(&self) -> (k: KeySlice<'_>) {
        self.entries[self.pos].0.as_slice()
    }

    fn value(&self) -> (v: &[u8]) {
        self.entries[self.pos].1.as_slice()
    }

    fn next(&mut self) -> (r: Result<(), IterationError>)
        ensures
            final(self).full() == old(self).full(),
            final(self).fail_pos() == old(self).fail_pos(),
            old(self).remaining().len() == 0 ==> r is Ok && final(self).position() == old(
                self,
            ).position(),
            old(self).remaining().len() != 0 && old(self).fail_pos() == Some(
                old(self).position(),
            ) ==> r == Result::<(), IterationError>::Err(IterationError::SourceFailure)
                && final(self).remaining().len() == 0,
            old(self).remaining().len() != 0 && old(self).fail_pos() != Some(
                old(self).position(),
            ) ==> r is Ok && final(self).position() == old(self).position() + 1,
    {
        if self.pos >= self.entries.len() {
            return Ok(());
        }
        let fail_here = match self.fail_at {
            Some(p) => p == self.pos,
            None => false,
        };
        if fail_here {
            self.pos = self.entries.len();
            proof {
                assert(self.remaining().len() == 0);
            }
            return Err(IterationError::SourceFailure);
        }
        let ghost before = self.full().skip(self.pos as int);
        self.pos = self.pos + 1;
        proof {
            assert(self.full().skip(self.pos as int) =~= before.drop_first());
        }
        Ok(())
    }
}

} // verus!
