use vstd::prelude::*;
use crate::hashmap::two_mut;
use crate::ids::{ArenaItemId, BucketId, BucketIdGenerator, EntryId};

verus! {

/// The failure of an operation that a storage strategy does not offer.
#[derive(Clone, Copy, PartialEq, Eq, Structural, Debug)]
pub struct Unsupported;

/// An append-only arena with a single bucket kept in a vector: an entry's number is its
/// index. Entries cannot be removed and two such arenas cannot be merged.
#[derive(Debug)]
pub struct VecArena<T> {
    bucket_id: BucketId,
    vec: Vec<T>,
}

impl<T> VecArena<T> {
    pub closed spec fn spec_bucket_id(&self) -> BucketId {
        self.bucket_id
    }

    /// The values in order of allocation.
    pub closed spec fn view(&self) -> Seq<T> {
        self.vec@
    }

    /// Whether `id` was issued by this arena.
    pub open spec fn holds(&self, id: ArenaItemId) -> bool {
        id.bucket_id == self.spec_bucket_id() && id.entry_id.0 < self@.len()
    }

    pub fn new(ids: &mut BucketIdGenerator) -> (r: VecArena<T>)
        requires
            old(ids).can_generate(),
        ensures
            r.spec_bucket_id().0 == old(ids).next_value(),
            final(ids).next_value() == old(ids).next_value() + 1,
            r@ == Seq::<T>::empty(),
    {
        VecArena { bucket_id: ids.generate(), vec: Vec::with_capacity(1024) }
    }

    pub fn owns(&self, id: ArenaItemId) -> (r: bool)
        ensures
            r == (id.bucket_id == self.spec_bucket_id()),
    {
        self.bucket_id == id.bucket_id
    }

    pub fn allocate(&mut self, value: T) -> (r: ArenaItemId)
        requires
            old(self)@.len() < u32::MAX,
        ensures
            r.bucket_id == old(self).spec_bucket_id(),
            r.entry_id.0 == old(self)@.len(),
            final(self).spec_bucket_id() == old(self).spec_bucket_id(),
            final(self)@ == old(self)@.push(value),
    {
        let item_id = ArenaItemId {
            bucket_id: self.bucket_id,
            entry_id: EntryId::new(self.vec.len() as u32),
        };
        self.vec.push(value);
        item_id
    }

    /// Entries of this arena cannot be removed: always fails, and changes nothing.
    pub fn dealloc(&mut self, id: ArenaItemId) -> (r: Result<T, Unsupported>)
        ensures
            r == Err::<T, Unsupported>(Unsupported),
            *final(self) == *old(self),
    {
        Err(Unsupported)
    }

    pub fn get(&self, id: ArenaItemId) -> (r: Option<&T>)
        requires
            self.holds(id),
        ensures
            r == Some(&self@[id.entry_id.0 as int]),
    {
        Some(&self.vec[id.entry_id.to_index()])
    }

    pub fn get_mut(&mut self, id: ArenaItemId) -> (r: Option<&mut T>)
        requires
            old(self).holds(id),
        ensures
            r.is_some(),
            *r.unwrap() == old(self)@[id.entry_id.0 as int],
            final(self).spec_bucket_id() == old(self).spec_bucket_id(),
            final(self)@ == old(self)@.update(id.entry_id.0 as int, *final(r.unwrap())),
    {
        Some(&mut self.vec[id.entry_id.to_index()])
    }

    /// Views of the values of two different ids at once.
    pub fn get_mut_pair(&mut self, first_id: ArenaItemId, second_id: ArenaItemId) -> (r: (
        Option<&mut T>,
        Option<&mut T>,
    ))
        requires
            first_id != second_id,
            old(self).holds(first_id),
            old(self).holds(second_id),
        ensures
            r.0.is_some() && r.1.is_some(),
            *r.0.unwrap() == old(self)@[first_id.entry_id.0 as int],
            *r.1.unwrap() == old(self)@[second_id.entry_id.0 as int],
            final(self).spec_bucket_id() == old(self).spec_bucket_id(),
            final(self)@ == old(self)@.update(first_id.entry_id.0 as int, *final(r.0.unwrap())).update(
                second_id.entry_id.0 as int,
                *final(r.1.unwrap()),
            ),
    {
        let i = first_id.entry_id.to_index();
        let j = second_id.entry_id.to_index();
        if i < j {
            let (a, b) = two_mut(&mut self.vec, i, j);
            (Some(a), Some(b))
        } else {
            let (b, a) = two_mut(&mut self.vec, j, i);
            (Some(a), Some(b))
        }
    }

    /// Two vector arenas cannot be merged, since their entry numbers would collide: always
    /// fails, and changes nothing.
    pub fn merge(&mut self, other: VecArena<T>) -> (r: Result<(), Unsupported>)
        ensures
            r == Err::<(), Unsupported>(Unsupported),
            *final(self) == *old(self),
    {
        Err(Unsupported)
    }
}

} // verus!
