//! The block encoder: accumulates sorted entries into a size-bounded
//! serialized block, and the immutable block it finalizes into.

use vstd::prelude::*;
use crate::key::KeySlice;
use crate::key::KeyVec;
use crate::key::copy_bytes;

verus! {

/// Big-endian bytes of a 16-bit quantity.
pub open spec fn u16_be(n: u16) -> Seq<u8> {
    seq![(n >> 8u16) as u8, (n & 0xffu16) as u8]
}

/// One serialized entry: 2-byte big-endian key length, key bytes, 2-byte
/// big-endian value length, value bytes.
pub open spec fn encode_entry(k: Seq<u8>, v: Seq<u8>) -> Seq<u8>
    recommends
        k.len() <= 0xffff,
        v.len() <= 0xffff,
{
    u16_be(k.len() as u16) + k + u16_be(v.len() as u16) + v
}

/// The data section: the entries serialized in append order.
pub open spec fn encode_entries(es: Seq<(Seq<u8>, Seq<u8>)>) -> Seq<u8>
    decreases es.len(),
{
    if es.len() == 0 {
        Seq::empty()
    } else {
        encode_entries(es.drop_last()) + encode_entry(es.last().0, es.last().1)
    }
}

/// The offsets section: for each entry, the 2-byte big-endian byte offset
/// of its serialization in the data section.
pub open spec fn encode_offsets(es: Seq<(Seq<u8>, Seq<u8>)>) -> Seq<u8>
    decreases es.len(),
{
    if es.len() == 0 {
        Seq::empty()
    } else {
        encode_offsets(es.drop_last()) + u16_be(encode_entries(es.drop_last()).len() as u16)
    }
}

/// The full block wire format: data section, offsets section, and a 2-byte
/// big-endian entry count as trailer.
pub open spec fn block_bytes(es: Seq<(Seq<u8>, Seq<u8>)>) -> Seq<u8> {
    encode_entries(es) + encode_offsets(es) + u16_be(es.len() as u16)
}

/// Every serialized entry takes at least its two length fields.
pub proof fn lemma_encode_entries_min_len(es: Seq<(Seq<u8>, Seq<u8>)>)
    ensures
        encode_entries(es).len() >= 4 * es.len(),
    decreases es.len(),
{
    if es.len() != 0 {
        lemma_encode_entries_min_len(es.drop_last());
    }
}

/// Appends the big-endian bytes of `n`.
fn push_u16_be(out: &mut Vec<u8>, n: u16)
    ensures
        final(out)@ == old(out)@ + u16_be(n),
{
    out.push((n >> 8u16) as u8);
    out.push((n & 0xffu16) as u8);
    proof {
        assert(out@ =~= old(out)@ + u16_be(n));
    }
}

/// Appends a byte slice.
fn extend_bytes(dst: &mut Vec<u8>, src: &[u8])
    ensures
        final(dst)@ == old(dst)@ + src@,
{
    let n = src.len();
    let mut i: usize = 0;
    while i < n
        invariant
            i <= n,
            n == src@.len(),
            dst@ == old(dst)@ + src@.take(i as int),
        decreases n - i,
    {
        dst.push(src[i]);
        proof {
            assert((old(dst)@ + src@.take(i as int)).push(src@[i as int]) =~= old(dst)@
                + src@.take(i + 1));
        }
        i += 1;
    }
    proof {
        assert(src@.take(n as int) =~= src@);
    }
}

/// Builds a block: accumulates entries until one is rejected for capacity
/// (or the caller stops), then is consumed by `build`.
pub struct BlockBuilder {
    /// Offsets of each serialized entry into the data buffer.
    offsets: Vec<u16>,
    /// All serialized key-value pairs in the block.
    data: Vec<u8>,
    /// The target block size.
    block_size: usize,
    /// The first accepted key, kept for higher-level indexing.
    first_key: KeyVec,
    entries: Ghost<Seq<(Seq<u8>, Seq<u8>)>>,
}

impl BlockBuilder {
    /// The entries accepted so far, in append order.
    pub closed spec fn entries(self) -> Seq<(Seq<u8>, Seq<u8>)> {
        self.entries@
    }

    /// The configured capacity.
    pub closed spec fn block_size(self) -> int {
        self.block_size as int
    }

    /// The first accepted key; empty while no entry has been accepted.
    pub closed spec fn spec_first_key(self) -> Seq<u8> {
        self.first_key@
    }

    /// The block's representative first key, retained for higher-level
    /// indexing; empty while no entry has been accepted.
    pub fn first_key(&self) -> (r: KeySlice<'_>)
        requires
            self.wf(),
        ensures
            r@ == self.spec_first_key(),
            self.entries().len() != 0 ==> r@ == self.entries()[0].0,
            self.entries().len() == 0 ==> r@.len() == 0,
    {
        self.first_key.as_key_slice()
    }

    /// Whether an entry is accepted: a first entry always is, whatever its
    /// size; a later one only when the data already written, the entry's
    /// serialization, and one more offset slot fit the capacity.
    pub open spec fn fits(self, k: Seq<u8>, v: Seq<u8>) -> bool {
        ||| self.entries().len() == 0
        ||| encode_entries(self.entries()).len() + k.len() + v.len() + 4 + 2 <= self.block_size()
    }

    /// Well-formedness: the data buffer is exactly the serialized entries,
    /// each offset is the data length at the moment its entry was appended,
    /// and all sizes respect the 16-bit wire format.
    pub closed spec fn wf(self) -> bool {
        &&& self.data@ == encode_entries(self.entries@)
        &&& self.offsets@.len() == self.entries@.len()
        &&& forall|i: int|
            0 <= i < self.entries@.len() ==> (#[trigger] self.offsets@[i]) as int
                == encode_entries(self.entries@.take(i)).len()
        &&& forall|i: int|
            0 <= i < self.entries@.len() ==> (#[trigger] self.entries@[i]).0.len() <= 0xffff
                && self.entries@[i].1.len() <= 0xffff
        &&& self.block_size <= 0xffff
        &&& self.first_key@ == (if self.entries@.len() == 0 {
            Seq::<u8>::empty()
        } else {
            self.entries@[0].0
        })
        &&& (self.entries@.len() >= 2 ==> self.data@.len() + 2 <= self.block_size)
        &&& self.data@.len() <= 131074
    }

    /// Creates an empty builder with the given capacity. Offsets and the
    /// entry count are 16-bit on the wire, so the capacity is bounded by
    /// what they can address.
    pub fn new(block_size: usize) -> (r: BlockBuilder)
        requires
            block_size <= 0xffff,
        ensures
            r.wf(),
            r.entries() == Seq::<(Seq<u8>, Seq<u8>)>::empty(),
            r.block_size() == block_size,
    {
        BlockBuilder {
            offsets: Vec::new(),
            data: Vec::new(),
            block_size,
            first_key: KeyVec::new(),
            entries: Ghost(Seq::empty()),
        }
    }

    /// Adds a key-value pair to the block. Returns false (and changes
    /// nothing) when the block is full; a first entry is always accepted,
    /// so every key is encodable in some block even if oversized.
    #[must_use]
    pub fn add(&mut self, key: KeySlice, value: &[u8]) -> (r: bool)
        requires
            old(self).wf(),
            key@.len() <= 0xffff,
            value@.len() <= 0xffff,
        ensures
            final(self).wf(),
            r == old(self).fits(key@, value@),
            r ==> final(self).entries() == old(self).entries().push((key@, value@)),
            !r ==> *final(self) == *old(self),
            final(self).block_size() == old(self).block_size(),
    {
        let key_len = key.len();
        let value_len = value.len();
        let entry_len = key_len + value_len + 4;
        let empty = self.offsets.len() == 0;
        if !empty && self.data.len() + entry_len + 2 > self.block_size {
            return false;
        }
        if empty {
            self.first_key = KeyVec::from_slice(key);
        }
        let off = self.data.len() as u16;
        self.offsets.push(off);
        push_u16_be(&mut self.data, key_len as u16);
        extend_bytes(&mut self.data, key);
        push_u16_be(&mut self.data, value_len as u16);
        extend_bytes(&mut self.data, value);
        let ghost es0 = old(self).entries@;
        let ghost es1 = es0.push((key@, value@));
        self.entries = Ghost(es1);
        proof {
            assert(es1.drop_last() =~= es0);
            assert(es1.last() == (key@, value@));
            assert(encode_entries(es1) == encode_entries(es0) + encode_entry(key@, value@));
            assert(self.data@ =~= encode_entries(es0) + encode_entry(key@, value@));
            assert forall|i: int|
                0 <= i < es1.len() implies (#[trigger] self.offsets@[i]) as int == encode_entries(
                es1.take(i),
            ).len() by {
                if i < es0.len() {
                    assert(self.offsets@[i] == old(self).offsets@[i]);
                    assert(es1.take(i) =~= es0.take(i));
                } else {
                    assert(i == es0.len());
                    assert(self.offsets@[i] == off);
                    assert(es1.take(i) =~= es0);
                }
            }
            assert(es1[0] == (if es0.len() == 0 {
                (key@, value@)
            } else {
                es0[0]
            }));
        }
        true
    }

    /// Checks whether no key-value pair has been accepted yet.
    pub fn is_empty(&self) -> (r: bool)
        requires
            self.wf(),
        ensures
            r == (self.entries().len() == 0),
    {
        self.offsets.len() == 0
    }

    /// Finalizes the block, consuming the builder. An empty builder yields
    /// a valid, empty block.
    pub fn build(self) -> (b: Block)
        requires
            self.wf(),
        ensures
            b.wf(),
            b.entries() == self.entries(),
    {
        proof {
            lemma_encode_entries_min_len(self.entries@);
        }
        Block { data: self.data, offsets: self.offsets, entries: Ghost(self.entries@) }
    }
}

/// An immutable, finalized block: the serialized entries and their offset
/// index. Produced once by consuming a builder; never mutated after.
pub struct Block {
    data: Vec<u8>,
    offsets: Vec<u16>,
    entries: Ghost<Seq<(Seq<u8>, Seq<u8>)>>,
}

impl Block {
    /// The entries the block carries, in order.
    pub closed spec fn entries(self) -> Seq<(Seq<u8>, Seq<u8>)> {
        self.entries@
    }

    /// Well-formedness: data and offsets agree with the carried entries.
    pub closed spec fn wf(self) -> bool {
        &&& self.data@ == encode_entries(self.entries@)
        &&& self.offsets@.len() == self.entries@.len()
        &&& forall|i: int|
            0 <= i < self.entries@.len() ==> (#[trigger] self.offsets@[i]) as int
                == encode_entries(self.entries@.take(i)).len()
        &&& forall|i: int|
            0 <= i < self.entries@.len() ==> (#[trigger] self.entries@[i]).0.len() <= 0xffff
                && self.entries@[i].1.len() <= 0xffff
        &&& self.entries@.len() <= 0xffff
    }

    /// How many entries the block carries.
    pub fn num_of_entries(&self) -> (n: usize)
        requires
            self.wf(),
        ensures
            n == self.entries().len(),
    {
        self.offsets.len()
    }

    /// Serializes the whole block: data section, offsets section, entry
    /// count trailer.
    pub fn encode(&self) -> (r: Vec<u8>)
        requires
            self.wf(),
        ensures
            r@ == block_bytes(self.entries()),
    {
        let mut out = copy_bytes(self.data.as_slice());
        let n = self.offsets.len();
        proof {
            assert(self.entries@.take(0) =~= Seq::<(Seq<u8>, Seq<u8>)>::empty());
            assert(out@ =~= encode_entries(self.entries@) + encode_offsets(self.entries@.take(0)));
        }
        let mut i: usize = 0;
        while i < n
            invariant
                i <= n,
                self.wf(),
                n == self.offsets@.len(),
                out@ == encode_entries(self.entries@) + encode_offsets(
                    self.entries@.take(i as int),
                ),
            decreases n - i,
        {
            push_u16_be(&mut out, self.offsets[i]);
            proof {
                assert(self.entries@.take(i + 1).drop_last() =~= self.entries@.take(i as int));
                assert(encode_offsets(self.entries@.take(i + 1)) == encode_offsets(
                    self.entries@.take(i as int),
                ) + u16_be(encode_entries(self.entries@.take(i as int)).len() as u16));
                assert(self.offsets@[i as int] as int == encode_entries(
                    self.entries@.take(i as int),
                ).len());
                assert(out@ =~= encode_entries(self.entries@) + encode_offsets(
                    self.entries@.take(i + 1),
                ));
            }
            i += 1;
        }
        push_u16_be(&mut out, n as u16);
        proof {
            assert(self.entries@.take(n as int) =~= self.entries@);
            assert(out@ =~= block_bytes(self.entries@));
        }
        out
    }
}

/// Capacity law of the encoder: an empty builder accepts any entry, however
/// large (forced progress); a nonempty one accepts exactly when the data
/// already written plus the entry's serialization plus one offset slot stays
/// within the capacity, so an exact fit is accepted and one byte more is
/// rejected.
pub proof fn lemma_append_boundary(b: BlockBuilder, k: Seq<u8>, v: Seq<u8>)
    requires
        b.wf(),
    ensures
        b.entries().len() == 0 ==> b.fits(k, v),
        b.entries().len() != 0 ==> (b.fits(k, v) <==> encode_entries(b.entries()).len() + k.len()
            + v.len() + 4 + 2 <= b.block_size()),
{
}

} // verus!
