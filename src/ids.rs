use vstd::prelude::*;

verus! {

/// Identifies one bucket of an arena; handed out by a [`BucketIdGenerator`].
#[derive(Clone, Copy, PartialEq, Eq, Structural, Hash, Debug, PartialOrd, Ord)]
pub struct BucketId(pub u32);

/// Identifies one entry inside a bucket; assigned in increasing order from 0.
#[derive(Clone, Copy, PartialEq, Eq, Structural, Hash, Debug, PartialOrd, Ord)]
pub struct EntryId(pub u32);

/// The handle through which arena contents are referenced: a bucket and an entry in it.
#[derive(Clone, Copy, PartialEq, Eq, Structural, Hash, Debug, PartialOrd, Ord)]
pub struct ArenaItemId {
    pub bucket_id: BucketId,
    pub entry_id: EntryId,
}

impl BucketId {
    pub fn new(value: u32) -> (r: BucketId)
        ensures
            r.0 == value,
    {
        BucketId(value)
    }
}

impl EntryId {
    pub fn new(value: u32) -> (r: EntryId)
        ensures
            r.0 == value,
    {
        EntryId(value)
    }

    /// Returns the current value and advances the counter by one.
    pub fn generate(&mut self) -> (r: EntryId)
        requires
            old(self).0 < u32::MAX,
        ensures
            r == *old(self),
            final(self).0 == old(self).0 + 1,
    {
        let index = self.0;
        self.0 = self.0 + 1;
        EntryId(index)
    }

    pub fn to_index(&self) -> (r: usize)
        ensures
            r == self.0,
    {
        self.0 as usize
    }
}

/// The source of bucket identifiers: a counter that every arena sharing it draws from,
/// so that no two buckets made from one generator carry the same id.
#[derive(Debug)]
pub struct BucketIdGenerator {
    next: u32,
}

impl BucketIdGenerator {
    /// The value that the next call of `generate` hands out.
    pub closed spec fn next_value(&self) -> nat {
        self.next as nat
    }

    /// Whether the generator has an id left to hand out.
    pub open spec fn can_generate(&self) -> bool {
        self.next_value() < u32::MAX
    }

    pub fn new() -> (r: BucketIdGenerator)
        ensures
            r.next_value() == 0,
    {
        BucketIdGenerator { next: 0 }
    }

    pub fn generate(&mut self) -> (r: BucketId)
        requires
            old(self).can_generate(),
        ensures
            r.0 == old(self).next_value(),
            final(self).next_value() == old(self).next_value() + 1,
    {
        let value = self.next;
        self.next = self.next + 1;
        BucketId(value)
    }
}

/// The 64-bit form of an id: the bucket id in the high half, the entry id in the low half.
pub open spec fn encode(id: ArenaItemId) -> u64 {
    ((id.bucket_id.0 as u64) << 32u64) | (id.entry_id.0 as u64)
}

/// The id whose 64-bit form is `value`.
pub open spec fn decode(value: u64) -> ArenaItemId {
    ArenaItemId {
        bucket_id: BucketId(((value >> 32u64) & 0xffff_ffffu64) as u32),
        entry_id: EntryId((value & 0xffff_ffffu64) as u32),
    }
}

impl ArenaItemId {
    pub fn to_u64(&self) -> (r: u64)
        ensures
            r == encode(*self),
    {
        let bucket_id = self.bucket_id.0 as u64;
        let entry_id = self.entry_id.0 as u64;
        (bucket_id << 32u64) | entry_id
    }

    pub fn from_u64(value: u64) -> (r: ArenaItemId)
        ensures
            r == decode(value),
    {
        let bucket_id = BucketId::new(((value >> 32u64) & 0xffff_ffffu64) as u32);
        let entry_id = EntryId::new((value & 0xffff_ffffu64) as u32);
        ArenaItemId { bucket_id, entry_id }
    }
}

impl num_traits::ToPrimitive for ArenaItemId {
    fn to_i64(&self) -> Option<i64> {
        None
    }

    fn to_u64(&self) -> Option<u64> {
        Some(ArenaItemId::to_u64(self))
    }
}

impl num_traits::FromPrimitive for ArenaItemId {
    fn from_i64(n: i64) -> Option<ArenaItemId> {
        None
    }

    fn from_u64(n: u64) -> Option<ArenaItemId> {
        Some(ArenaItemId::from_u64(n))
    }
}

/// Encoding an id as a 64-bit integer and decoding it gives the id back, and every
/// 64-bit integer is the encoding of exactly the id it decodes to.
pub proof fn lemma_id_round_trip(id: ArenaItemId, value: u64)
    ensures
        decode(encode(id)) == id,
        encode(decode(value)) == value,
{
    let b = id.bucket_id.0;
    let e = id.entry_id.0;
    assert((((((b as u64) << 32u64) | (e as u64)) >> 32u64) & 0xffff_ffffu64) as u32 == b)
        by (bit_vector);
    assert(((((b as u64) << 32u64) | (e as u64)) & 0xffff_ffffu64) as u32 == e) by (bit_vector);
    assert(((((value >> 32u64) & 0xffff_ffffu64) as u32 as u64) << 32u64) | ((value
        & 0xffff_ffffu64) as u32 as u64) == value) by (bit_vector);
}

} // verus!
