//! The top-level read iterator over an inner merge, and the fault-fusing
//! wrapper that latches errors across any iterator it wraps.

use vstd::prelude::*;
use vstd::pervasive::unreached;
use crate::iterators::IterationError;
use crate::iterators::StorageIterator;
use crate::key::KeySlice;
use crate::merge_iterator::MergeIterator;

verus! {

/// No entry has an empty key or an empty value: the invariant the top-level
/// read iterator enforces. Upstream tombstone or empty-value conventions
/// must be filtered before entries reach it.
pub open spec fn no_empty_entries(s: Seq<(Seq<u8>, Seq<u8>)>) -> bool {
    forall|i: int| 0 <= i < s.len() ==> (#[trigger] s[i]).0.len() != 0 && s[i].1.len() != 0
}

/// Consuming the first entry keeps every remaining entry nonempty.
pub proof fn lemma_no_empty_entries_drop_first(s: Seq<(Seq<u8>, Seq<u8>)>)
    requires
        no_empty_entries(s),
        s.len() != 0,
    ensures
        no_empty_entries(s.drop_first()),
{
    assert forall|i: int| 0 <= i < s.drop_first().len() implies (#[trigger] s.drop_first()[
    i]).0.len() != 0 && s.drop_first()[i].1.len() != 0 by {
        assert(s.drop_first()[i] == s[i + 1]);
    }
}

/// The internal iterator type the read path is built over.
pub type LsmIteratorInner<I> = MergeIterator<I>;

/// The engine's public, byte-oriented view over an inner merge iterator.
/// Reading an entry with an empty key or empty value is a contract
/// violation at this layer, never a normal result.
pub struct LsmIterator<I: StorageIterator> {
    inner: LsmIteratorInner<I>,
}

impl<I: StorageIterator> LsmIterator<I> {
    /// The wrapped merge iterator.
    pub closed spec fn inner_iter(self) -> MergeIterator<I> {
        self.inner
    }

    /// Wraps a merge iterator whose stream holds no empty key and no empty
    /// value.
    pub fn new(iter: LsmIteratorInner<I>) -> (r: Result<LsmIterator<I>, IterationError>)
        requires
            iter.inv(),
            no_empty_entries(iter.remaining()),
        ensures
            r matches Ok(l) && l.inner_iter() == iter,
            r matches Ok(l) && l.inv(),
            r matches Ok(l) && l.remaining() == iter.remaining(),
    {
        Ok(LsmIterator { inner: iter })
    }
}

impl<I: StorageIterator> StorageIterator for LsmIterator<I> {
    closed spec fn inv(&self) -> bool {
        &&& self.inner.inv()
        &&& no_empty_entries(self.inner.remaining())
    }

    closed spec fn remaining(&self) -> Seq<(Seq<u8>, Seq<u8>)> {
        self.inner.remaining()
    }

    fn is_valid(&self) -> (r: bool) {
        self.inner.is_valid()
    }

    /// The raw bytes of the current key; never empty at this layer.
    fn key(&self) -> (k: KeySlice<'_>)
        ensures
            k@.len() != 0,
    {
        self.inner.key()
    }

    /// The raw bytes of the current value; never empty at this layer.
    fn value(&self) -> (v: &[u8])
        ensures
            v@.len() != 0,
    {
        self.inner.value()
    }

    /// Advances the inner merge. Exhaustion is signalled distinctly from
    /// ordinary success: when the inner iterator becomes (or already was)
    /// invalid, the call reports an error instead of succeeding.
    fn next(&mut self) -> (r: Result<(), IterationError>)
        ensures
            r is Ok ==> old(self).remaining().len() > 1,
            old(self).remaining().len() == 1 ==> r is Err,
            old(self).remaining().len() == 0 ==> r == Result::<(), IterationError>::Err(
                IterationError::NotValid,
            ),
            r is Err ==> final(self).remaining().len() == 0,
    {
        let ghost pre = self.inner.remaining();
        let res = self.inner.next();
        proof {
            if pre.len() != 0 && res is Ok {
                lemma_no_empty_entries_drop_first(pre);
            }
        }
        if let Err(e) = res {
            return Err(e);
        }
        if self.inner.is_valid() {
            Ok(())
        } else {
            Err(IterationError::NotValid)
        }
    }
}

/// Wraps any iterator and makes error handling uniform and irreversible:
/// once one `next` call fails, the wrapper is latched, reports invalid, and
/// every later `next` fails without touching the wrapped iterator again.
/// Mere exhaustion (valid turning false without an error) does not latch.
pub struct FusedIterator<I: StorageIterator> {
    iter: I,
    has_errored: bool,
}

impl<I: StorageIterator> FusedIterator<I> {
    /// Whether an error has been latched.
    pub closed spec fn errored(self) -> bool {
        self.has_errored
    }

    /// The wrapped iterator.
    pub closed spec fn inner(self) -> I {
        self.iter
    }

    /// Wraps `iter`; the wrapper owns it for its whole lifetime.
    pub fn new(iter: I) -> (r: FusedIterator<I>)
        ensures
            r.inner() == iter,
            !r.errored(),
            r.inv() == iter.inv(),
            r.remaining() == iter.remaining(),
    {
        FusedIterator { iter, has_errored: false }
    }
}

impl<I: StorageIterator> StorageIterator for FusedIterator<I> {
    closed spec fn inv(&self) -> bool {
        self.iter.inv()
    }

    closed spec fn remaining(&self) -> Seq<(Seq<u8>, Seq<u8>)> {
        if self.has_errored {
            Seq::empty()
        } else {
            self.iter.remaining()
        }
    }

    /// False as soon as an error is latched, whatever the wrapped iterator
    /// would report.
    fn is_valid(&self) -> (r: bool)
        ensures
            self.errored() ==> !r,
    {
        if self.has_errored {
            false
        } else {
            self.iter.is_valid()
        }
    }

    fn key(&self) -> (k: KeySlice<'_>) {
        if self.has_errored {
            unreached()
        } else {
            self.iter.key()
        }
    }

    fn value(&self) -> (v: &[u8]) {
        if self.has_errored {
            unreached()
        } else {
            self.iter.value()
        }
    }

    /// Once latched, fails immediately and leaves the wrapped iterator
    /// untouched; otherwise delegates, latching on any delegate failure.
    fn next(&mut self) -> (r: Result<(), IterationError>)
        ensures
            old(self).errored() ==> r == Result::<(), IterationError>::Err(
                IterationError::NotValid,
            ) && *final(self) == *old(self),
            final(self).errored() == (old(self).errored() || r is Err),
            !old(self).errored() && r is Err ==> final(self).remaining().len() == 0,
    {
        if self.has_errored {
            return Err(IterationError::NotValid);
        }
        match self.iter.next() {
            Ok(()) => Ok(()),
            Err(e) => {
                self.has_errored = true;
                Err(e)
            },
        }
    }
}

} // verus!
