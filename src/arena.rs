use vstd::prelude::*;
use crate::hashmap::HashmapArena;
use crate::ids::ArenaItemId;
use crate::vec_arena::{Unsupported, VecArena};

verus! {

/// What every storage strategy for arena values offers. A strategy that cannot remove
/// entries or merge arenas says so with `Unsupported`, and changes nothing.
pub trait Arena<T>: Sized {
    /// The values held, by id.
    spec fn items(&self) -> Map<ArenaItemId, T>;

    /// The strategy's invariant.
    spec fn valid(&self) -> bool;

    /// Whether one more allocation has an entry number left.
    spec fn has_room(&self) -> bool;

    /// Whether `id` may be looked up: a strategy that reads without checks admits only
    /// ids it issued.
    spec fn may_look_up(&self, id: ArenaItemId) -> bool;

    /// Whether `other` may be merged into this arena.
    spec fn may_merge(&self, other: &Self) -> bool;

    /// Whether the strategy can remove entries.
    spec fn removes_entries() -> bool;

    /// Whether the strategy can merge arenas.
    spec fn merges() -> bool;

    fn allocate(&mut self, value: T) -> (r: ArenaItemId)
        requires
            old(self).valid(),
            old(self).has_room(),
        ensures
            final(self).valid(),
            !old(self).items().contains_key(r),
            final(self).items() == old(self).items().insert(r, value),
    ;

    fn get(&self, id: ArenaItemId) -> (r: Option<&T>)
        requires
            self.valid(),
            self.may_look_up(id),
        ensures
            r.is_some() == self.items().contains_key(id),
            r.is_some() ==> *r.unwrap() == self.items()[id],
    ;

    fn get_mut(&mut self, id: ArenaItemId) -> (r: Option<&mut T>)
        requires
            old(self).valid(),
            old(self).may_look_up(id),
        ensures
            final(self).valid(),
            r.is_some() == old(self).items().contains_key(id),
            r.is_some() ==> *r.unwrap() == old(self).items()[id] && final(self).items()
                == old(self).items().insert(id, *final(r.unwrap())),
            r.is_none() ==> final(self).items() == old(self).items(),
    ;

    fn get_mut_pair(&mut self, first_id: ArenaItemId, second_id: ArenaItemId) -> (r: (
        Option<&mut T>,
        Option<&mut T>,
    ))
        requires
            old(self).valid(),
            first_id != second_id,
            old(self).may_look_up(first_id),
            old(self).may_look_up(second_id),
        ensures
            final(self).valid(),
            r.0.is_some() == old(self).items().contains_key(first_id),
            r.1.is_some() == old(self).items().contains_key(second_id),
            r.0.is_some() ==> *r.0.unwrap() == old(self).items()[first_id],
            r.1.is_some() ==> *r.1.unwrap() == old(self).items()[second_id],
            r.0.is_some() && r.1.is_some() ==> final(self).items() == old(self).items().insert(
                first_id,
                *final(r.0.unwrap()),
            ).insert(second_id, *final(r.1.unwrap())),
            r.0.is_some() && r.1.is_none() ==> final(self).items() == old(self).items().insert(
                first_id,
                *final(r.0.unwrap()),
            ),
            r.0.is_none() && r.1.is_some() ==> final(self).items() == old(self).items().insert(
                second_id,
                *final(r.1.unwrap()),
            ),
            r.0.is_none() && r.1.is_none() ==> final(self).items() == old(self).items(),
    ;

    fn dealloc(&mut self, id: ArenaItemId) -> (r: Result<Option<T>, Unsupported>)
        requires
            old(self).valid(),
        ensures
            final(self).valid(),
            r.is_ok() == Self::removes_entries(),
            r.is_ok() ==> r == Ok::<Option<T>, Unsupported>(
                if old(self).items().contains_key(id) {
                    Some(old(self).items()[id])
                } else {
                    None
                },
            ) && final(self).items() == old(self).items().remove(id),
            r.is_err() ==> final(self).items() == old(self).items(),
    ;

    fn merge(&mut self, other: Self) -> (r: Result<(), Unsupported>)
        requires
            old(self).valid(),
            other.valid(),
            old(self).may_merge(&other),
        ensures
            final(self).valid(),
            r.is_ok() == Self::merges(),
            r.is_ok() ==> final(self).items() == old(self).items().union_prefer_right(other.items()),
            r.is_err() ==> final(self).items() == old(self).items(),
    ;
}

impl<T> Arena<T> for HashmapArena<T> {
    open spec fn items(&self) -> Map<ArenaItemId, T> {
        self@
    }

    open spec fn valid(&self) -> bool {
        self.wf()
    }

    open spec fn has_room(&self) -> bool {
        self.can_alloc()
    }

    open spec fn may_look_up(&self, id: ArenaItemId) -> bool {
        true
    }

    open spec fn may_merge(&self, other: &Self) -> bool {
        self.bucket_ids().disjoint(other.bucket_ids())
    }

    open spec fn removes_entries() -> bool {
        true
    }

    open spec fn merges() -> bool {
        true
    }

    fn allocate(&mut self, value: T) -> (r: ArenaItemId) {
        let ghost before = *self;
        let r = HashmapArena::allocate(self, value);
        proof {
            before.lemma_ids_in_buckets(r);
        }
        r
    }

    fn get(&self, id: ArenaItemId) -> (r: Option<&T>) {
        HashmapArena::get(self, id)
    }

    fn get_mut(&mut self, id: ArenaItemId) -> (r: Option<&mut T>) {
        HashmapArena::get_mut(self, id)
    }

    fn get_mut_pair(&mut self, first_id: ArenaItemId, second_id: ArenaItemId) -> (r: (
        Option<&mut T>,
        Option<&mut T>,
    )) {
        HashmapArena::get_mut_pair(self, first_id, second_id)
    }

    fn dealloc(&mut self, id: ArenaItemId) -> (r: Result<Option<T>, Unsupported>) {
        Ok(HashmapArena::dealloc(self, id))
    }

    fn merge(&mut self, other: Self) -> (r: Result<(), Unsupported>) {
        HashmapArena::merge(self, other);
        Ok(())
    }
}

impl<T> Arena<T> for VecArena<T> {
    open spec fn items(&self) -> Map<ArenaItemId, T> {
        Map::new(|id: ArenaItemId| self.holds(id), |id: ArenaItemId| self@[id.entry_id.0 as int])
    }

    open spec fn valid(&self) -> bool {
        true
    }

    open spec fn has_room(&self) -> bool {
        self@.len() < u32::MAX
    }

    open spec fn may_look_up(&self, id: ArenaItemId) -> bool {
        self.holds(id)
    }

    open spec fn may_merge(&self, other: &Self) -> bool {
        true
    }

    open spec fn removes_entries() -> bool {
        false
    }

    open spec fn merges() -> bool {
        false
    }

    fn allocate(&mut self, value: T) -> (r: ArenaItemId) {
        let ghost before = *self;
        let r = VecArena::allocate(self, value);
        proof {
            assert(self.items() =~= before.items().insert(r, value));
        }
        r
    }

    fn get(&self, id: ArenaItemId) -> (r: Option<&T>) {
        VecArena::get(self, id)
    }

    fn get_mut(&mut self, id: ArenaItemId) -> (r: Option<&mut T>) {
        let ghost before = *self;
        let r = VecArena::get_mut(self, id);
        proof {
            let after = after_borrow(*self);
            assert(after.items() =~= before.items().insert(id, *final(r.unwrap())));
        }
        r
    }

    fn get_mut_pair(&mut self, first_id: ArenaItemId, second_id: ArenaItemId) -> (r: (
        Option<&mut T>,
        Option<&mut T>,
    )) {
        let ghost before = *self;
        let r = VecArena::get_mut_pair(self, first_id, second_id);
        proof {
            let after = after_borrow(*self);
            assert(first_id.entry_id != second_id.entry_id);
            assert(after.items() =~= before.items().insert(first_id, *final(r.0.unwrap())).insert(
                second_id,
                *final(r.1.unwrap()),
            ));
        }
        r
    }

    fn dealloc(&mut self, id: ArenaItemId) -> (r: Result<Option<T>, Unsupported>) {
        match VecArena::dealloc(self, id) {
            Ok(value) => Ok(Some(value)),
            Err(e) => Err(e),
        }
    }

    fn merge(&mut self, other: Self) -> (r: Result<(), Unsupported>) {
        VecArena::merge(self, other)
    }
}

} // verus!
