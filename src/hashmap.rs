use vstd::prelude::*;
use crate::entry_map::{
    EntryMap,
    map_new,
    map_insert,
    map_remove,
    map_get,
    map_get_mut,
    map_get_pair_mut,
};
use crate::ids::{ArenaItemId, BucketId, BucketIdGenerator, EntryId};

verus! {

/// One storage partition of a [`HashmapArena`]: its own id, the next entry number to hand
/// out, and the live entries keyed by entry number. Entry numbers are never reused.
#[derive(Debug)]
pub struct HashmapBucket<T> {
    bucket_id: BucketId,
    next_entry_id: EntryId,
    map: EntryMap<T>,
}

impl<T> HashmapBucket<T> {
    pub closed spec fn spec_bucket_id(&self) -> BucketId {
        self.bucket_id
    }

    /// The entry number that the next allocation receives.
    pub closed spec fn next_entry(&self) -> nat {
        self.next_entry_id.0 as nat
    }

    /// The live entries, keyed by entry number.
    pub closed spec fn entries(&self) -> Map<u32, T> {
        self.map@
    }

    pub closed spec fn wf(&self) -> bool {
        forall|k: u32| #[trigger] self.map@.contains_key(k) ==> k < self.next_entry_id.0
    }

    /// What `get` finds for `id` in this bucket.
    pub open spec fn lookup(&self, id: ArenaItemId) -> Option<T> {
        if id.bucket_id == self.spec_bucket_id() && self.entries().contains_key(id.entry_id.0) {
            Some(self.entries()[id.entry_id.0])
        } else {
            None
        }
    }

    pub fn new(ids: &mut BucketIdGenerator) -> (r: HashmapBucket<T>)
        requires
            old(ids).can_generate(),
        ensures
            r.wf(),
            r.spec_bucket_id().0 == old(ids).next_value(),
            final(ids).next_value() == old(ids).next_value() + 1,
            r.next_entry() == 0,
            r.entries() =~= Map::empty(),
    {
        HashmapBucket { bucket_id: ids.generate(), next_entry_id: EntryId::new(0), map: map_new() }
    }

    pub fn owns(&self, id: ArenaItemId) -> (r: bool)
        ensures
            r == (id.bucket_id == self.spec_bucket_id()),
    {
        self.bucket_id == id.bucket_id
    }

    pub fn allocate(&mut self, value: T) -> (r: ArenaItemId)
        requires
            old(self).wf(),
            old(self).next_entry() < u32::MAX,
        ensures
            final(self).wf(),
            r.bucket_id == old(self).spec_bucket_id(),
            r.entry_id.0 == old(self).next_entry(),
            !old(self).entries().contains_key(r.entry_id.0),
            final(self).spec_bucket_id() == old(self).spec_bucket_id(),
            final(self).next_entry() == old(self).next_entry() + 1,
            final(self).entries() == old(self).entries().insert(r.entry_id.0, value),
    {
        let item_id = ArenaItemId { bucket_id: self.bucket_id, entry_id: self.next_entry_id.generate() };
        map_insert(&mut self.map, item_id.entry_id.0, value);
        item_id
    }

    /// Removes the entry of `id` and returns its value; `None` when this bucket does not
    /// own `id` or holds no entry for it.
    pub fn dealloc(&mut self, id: ArenaItemId) -> (r: Option<T>)
        requires
            old(self).wf(),
        ensures
            final(self).wf(),
            r == old(self).lookup(id),
            final(self).spec_bucket_id() == old(self).spec_bucket_id(),
            final(self).next_entry() == old(self).next_entry(),
            final(self).entries() == (if id.bucket_id == old(self).spec_bucket_id() {
                old(self).entries().remove(id.entry_id.0)
            } else {
                old(self).entries()
            }),
    {
        if self.bucket_id != id.bucket_id {
            return None;
        }
        map_remove(&mut self.map, id.entry_id.0)
    }

    pub fn get(&self, id: ArenaItemId) -> (r: Option<&T>)
        ensures
            r.is_some() == self.lookup(id).is_some(),
            r.is_some() ==> *r.unwrap() == self.lookup(id).unwrap(),
    {
        if self.bucket_id != id.bucket_id {
            return None;
        }
        map_get(&self.map, id.entry_id.0)
    }

    pub fn get_mut(&mut self, id: ArenaItemId) -> (r: Option<&mut T>)
        requires
            old(self).wf(),
        ensures
            r.is_some() == old(self).lookup(id).is_some(),
            r.is_some() ==> *r.unwrap() == old(self).lookup(id).unwrap(),
            final(self).wf(),
            final(self).spec_bucket_id() == old(self).spec_bucket_id(),
            final(self).next_entry() == old(self).next_entry(),
            r.is_some() ==> final(self).entries() == old(self).entries().insert(
                id.entry_id.0,
                *final(r.unwrap()),
            ),
            r.is_none() ==> final(self).entries() == old(self).entries(),
    {
        if self.bucket_id != id.bucket_id {
            return None;
        }
        map_get_mut(&mut self.map, id.entry_id.0)
    }
    /// Views of the values of two different ids at once; each is `None` when this bucket
    /// does not own that id or holds no entry for it.
    pub fn get_mut_pair(&mut self, first_id: ArenaItemId, second_id: ArenaItemId) -> (r: (
        Option<&mut T>,
        Option<&mut T>,
    ))
        requires
            old(self).wf(),
            first_id != second_id,
        ensures
            r.0.is_some() == old(self).lookup(first_id).is_some(),
            r.1.is_some() == old(self).lookup(second_id).is_some(),
            r.0.is_some() ==> *r.0.unwrap() == old(self).lookup(first_id).unwrap(),
            r.1.is_some() ==> *r.1.unwrap() == old(self).lookup(second_id).unwrap(),
            final(self).wf(),
            final(self).spec_bucket_id() == old(self).spec_bucket_id(),
            final(self).next_entry() == old(self).next_entry(),
            r.0.is_some() && r.1.is_some() ==> final(self).entries() == old(self).entries().insert(
                first_id.entry_id.0,
                *final(r.0.unwrap()),
            ).insert(second_id.entry_id.0, *final(r.1.unwrap())),
            r.0.is_some() && r.1.is_none() ==> final(self).entries() == old(self).entries().insert(
                first_id.entry_id.0,
                *final(r.0.unwrap()),
            ),
            r.0.is_none() && r.1.is_some() ==> final(self).entries() == old(self).entries().insert(
                second_id.entry_id.0,
                *final(r.1.unwrap()),
            ),
            r.0.is_none() && r.1.is_none() ==> final(self).entries() == old(self).entries(),
    {
        let owns_first = self.bucket_id == first_id.bucket_id;
        let owns_second = self.bucket_id == second_id.bucket_id;
        if owns_first && owns_second {
            map_get_pair_mut(&mut self.map, first_id.entry_id.0, second_id.entry_id.0)
        } else if owns_first {
            (map_get_mut(&mut self.map, first_id.entry_id.0), None)
        } else if owns_second {
            (None, map_get_mut(&mut self.map, second_id.entry_id.0))
        } else {
            (None, None)
        }
    }
}

/// Views of two different elements of a vector at once, the lower index first.
pub(crate) fn two_mut<X>(v: &mut Vec<X>, lo: usize, hi: usize) -> (r: (&mut X, &mut X))
    requires
        lo < hi < old(v)@.len(),
    ensures
        *r.0 == old(v)@[lo as int],
        *r.1 == old(v)@[hi as int],
        final(v)@ == old(v)@.update(lo as int, *final(r.0)).update(hi as int, *final(r.1)),
{
    let (left, right) = v.as_mut_slice().split_at_mut(hi);
    let (_, middle) = left.split_at_mut(lo);
    let a = middle.first_mut().unwrap();
    let b = right.first_mut().unwrap();
    (a, b)
}

/// An arena whose buckets keep their entries in hash maps: entries can be removed, and
/// two arenas can be merged by moving buckets, without renumbering any id.
#[derive(Debug)]
pub struct HashmapArena<T> {
    buckets: Vec<HashmapBucket<T>>,
}

impl<T> HashmapArena<T> {
    pub closed spec fn has_bucket(&self, b: BucketId) -> bool {
        exists|i: int| 0 <= i < self.buckets@.len() && #[trigger] self.buckets@[i].spec_bucket_id() == b
    }

    pub closed spec fn bucket_index(&self, b: BucketId) -> int {
        choose|i: int| 0 <= i < self.buckets@.len() && #[trigger] self.buckets@[i].spec_bucket_id() == b
    }

    /// The ids of the buckets this arena holds.
    pub open spec fn bucket_ids(&self) -> Set<BucketId> {
        Set::new(|b: BucketId| self.has_bucket(b))
    }

    /// What `get` finds for `id`.
    pub closed spec fn lookup(&self, id: ArenaItemId) -> Option<T> {
        if self.has_bucket(id.bucket_id) {
            self.buckets@[self.bucket_index(id.bucket_id)].lookup(id)
        } else {
            None
        }
    }

    /// The live values, by id.
    pub open spec fn view(&self) -> Map<ArenaItemId, T> {
        Map::new(|id: ArenaItemId| self.lookup(id).is_some(), |id: ArenaItemId| self.lookup(id).unwrap())
    }

    /// Whether this arena has ever handed out `id`.
    pub closed spec fn issued(&self, id: ArenaItemId) -> bool {
        self.has_bucket(id.bucket_id) && id.entry_id.0 < self.buckets@[self.bucket_index(
            id.bucket_id,
        )].next_entry()
    }

    /// How many allocations this arena has made into its own bucket.
    pub closed spec fn alloc_count(&self) -> nat {
        if self.buckets@.len() > 0 { self.buckets@[0].next_entry() } else { u32::MAX as nat }
    }

    /// Whether an allocation has an entry number left.
    pub open spec fn can_alloc(&self) -> bool {
        self.alloc_count() < u32::MAX
    }

    pub closed spec fn wf(&self) -> bool {
        &&& self.buckets@.len() > 0
        &&& forall|i: int| 0 <= i < self.buckets@.len() ==> #[trigger] self.buckets@[i].wf()
        &&& forall|i: int, j: int|
            0 <= i < self.buckets@.len() && 0 <= j < self.buckets@.len() && i != j
                ==> #[trigger] self.buckets@[i].spec_bucket_id() != #[trigger] self.buckets@[j].spec_bucket_id()
    }

    proof fn lemma_index(&self, i: int)
        requires
            self.wf(),
            0 <= i < self.buckets@.len(),
        ensures
            self.has_bucket(self.buckets@[i].spec_bucket_id()),
            self.bucket_index(self.buckets@[i].spec_bucket_id()) == i,
    {
        let b = self.buckets@[i].spec_bucket_id();
        assert(self.buckets@[i].spec_bucket_id() == b);
        let j = self.bucket_index(b);
        assert(0 <= j < self.buckets@.len() && self.buckets@[j].spec_bucket_id() == b);
    }

    /// Every live id and every id handed out belongs to one of this arena's buckets, and
    /// every live id has been handed out.
    pub proof fn lemma_ids_in_buckets(&self, id: ArenaItemId)
        requires
            self.wf(),
        ensures
            self@.contains_key(id) ==> self.issued(id),
            self.issued(id) ==> self.bucket_ids().contains(id.bucket_id),
    {
        if self@.contains_key(id) {
            let i = self.bucket_index(id.bucket_id);
            assert(self.buckets@[i].wf());
            assert(self.buckets@[i].entries().contains_key(id.entry_id.0));
        }
    }

    pub fn new(ids: &mut BucketIdGenerator) -> (r: HashmapArena<T>)
        requires
            old(ids).can_generate(),
        ensures
            r.wf(),
            r.alloc_count() == 0,
            r@ =~= Map::empty(),
            r.bucket_ids() =~= set![BucketId(old(ids).next_value() as u32)],
            forall|id: ArenaItemId| !r.issued(id),
            final(ids).next_value() == old(ids).next_value() + 1,
    {
        let bucket = HashmapBucket::new(ids);
        let mut buckets = Vec::new();
        buckets.push(bucket);
        let r = HashmapArena { buckets };
        proof {
            assert forall|id: ArenaItemId| !r.issued(id) by {
                if r.has_bucket(id.bucket_id) {
                    r.lemma_index(0);
                }
            }
            assert forall|b: BucketId| r.bucket_ids().contains(b) <==> b == BucketId(old(ids).next_value() as u32) by {
                if b == BucketId(old(ids).next_value() as u32) {
                    assert(r.buckets@[0].spec_bucket_id() == b);
                }
            }
        }
        r
    }

    /// The index of the bucket with id `b`, if this arena holds one.
    fn position(&self, b: BucketId) -> (r: Option<usize>)
        requires
            self.wf(),
        ensures
            r.is_some() == self.has_bucket(b),
            r.is_some() ==> r.unwrap() == self.bucket_index(b) && r.unwrap() < self.buckets@.len(),
    {
        let mut i: usize = 0;
        while i < self.buckets.len()
            invariant
                self.wf(),
                0 <= i <= self.buckets@.len(),
                forall|j: int| 0 <= j < i ==> #[trigger] self.buckets@[j].spec_bucket_id() != b,
            decreases self.buckets@.len() - i,
        {
            if self.buckets[i].owns(ArenaItemId { bucket_id: b, entry_id: EntryId(0) }) {
                proof {
                    self.lemma_index(i as int);
                }
                return Some(i);
            }
            i = i + 1;
        }
        None
    }

    proof fn lemma_lookup_at(&self, i: int, id: ArenaItemId)
        requires
            self.wf(),
            0 <= i < self.buckets@.len(),
            self.buckets@[i].spec_bucket_id() == id.bucket_id,
        ensures
            self.has_bucket(id.bucket_id),
            self.bucket_index(id.bucket_id) == i,
            self.lookup(id) == self.buckets@[i].lookup(id),
            self@.contains_key(id) == self.buckets@[i].lookup(id).is_some(),
            self@.contains_key(id) ==> self@[id] == self.buckets@[i].lookup(id).unwrap(),
            self.issued(id) == (id.entry_id.0 < self.buckets@[i].next_entry()),
    {
        self.lemma_index(i);
    }

    /// Two arenas whose buckets agree in ids, and in everything but buckets `k1` and `k2`,
    /// agree on every id outside those two buckets.
    proof fn lemma_frame(old_a: &Self, new_a: &Self, k1: int, k2: int)
        requires
            old_a.wf(),
            new_a.wf(),
            0 <= k1 < old_a.buckets@.len(),
            0 <= k2 < old_a.buckets@.len(),
            new_a.buckets@.len() == old_a.buckets@.len(),
            forall|i: int|
                0 <= i < old_a.buckets@.len() ==> #[trigger] new_a.buckets@[i].spec_bucket_id()
                    == old_a.buckets@[i].spec_bucket_id(),
            forall|i: int|
                0 <= i < old_a.buckets@.len() && i != k1 && i != k2 ==> new_a.buckets@[i]
                    == old_a.buckets@[i],
        ensures
            new_a.bucket_ids() == old_a.bucket_ids(),
            forall|id: ArenaItemId|
                #![trigger new_a.lookup(id)]
                #![trigger new_a.issued(id)]
                id.bucket_id != old_a.buckets@[k1].spec_bucket_id() && id.bucket_id
                    != old_a.buckets@[k2].spec_bucket_id() ==> (new_a.lookup(id) == old_a.lookup(id)
                    && new_a.issued(id) == old_a.issued(id)),
            forall|id: ArenaItemId|
                #![trigger new_a.lookup(id)]
                #![trigger new_a.issued(id)]
                id.bucket_id == old_a.buckets@[k1].spec_bucket_id() ==> (new_a.lookup(id)
                    == new_a.buckets@[k1].lookup(id) && old_a.lookup(id) == old_a.buckets@[k1].lookup(id)
                    && new_a.issued(id) == (id.entry_id.0 < new_a.buckets@[k1].next_entry())
                    && old_a.issued(id) == (id.entry_id.0 < old_a.buckets@[k1].next_entry())),
            forall|id: ArenaItemId|
                #![trigger new_a.lookup(id)]
                #![trigger new_a.issued(id)]
                id.bucket_id == old_a.buckets@[k2].spec_bucket_id() ==> (new_a.lookup(id)
                    == new_a.buckets@[k2].lookup(id) && old_a.lookup(id) == old_a.buckets@[k2].lookup(id)
                    && new_a.issued(id) == (id.entry_id.0 < new_a.buckets@[k2].next_entry())
                    && old_a.issued(id) == (id.entry_id.0 < old_a.buckets@[k2].next_entry())),
    {
        assert forall|b: BucketId| #[trigger] old_a.has_bucket(b) == new_a.has_bucket(b) by {
            if old_a.has_bucket(b) {
                old_a.lemma_index(old_a.bucket_index(b));
                new_a.lemma_index(old_a.bucket_index(b));
            }
            if new_a.has_bucket(b) {
                new_a.lemma_index(new_a.bucket_index(b));
                old_a.lemma_index(new_a.bucket_index(b));
            }
        }
        assert(new_a.bucket_ids() =~= old_a.bucket_ids());
        assert forall|id: ArenaItemId|
            #![trigger new_a.lookup(id)]
            #![trigger new_a.issued(id)]
            old_a.has_bucket(id.bucket_id) implies ({
                let i = old_a.bucket_index(id.bucket_id);
                &&& new_a.lookup(id) == new_a.buckets@[i].lookup(id)
                &&& old_a.lookup(id) == old_a.buckets@[i].lookup(id)
                &&& new_a.issued(id) == (id.entry_id.0 < new_a.buckets@[i].next_entry())
                &&& old_a.issued(id) == (id.entry_id.0 < old_a.buckets@[i].next_entry())
                &&& old_a.buckets@[i].spec_bucket_id() == id.bucket_id
            }) by {
            let i = old_a.bucket_index(id.bucket_id);
            old_a.lemma_lookup_at(i, id);
            new_a.lemma_lookup_at(i, id);
        }
        assert forall|id: ArenaItemId|
            #![trigger new_a.lookup(id)]
            #![trigger new_a.issued(id)]
            id.bucket_id == old_a.buckets@[k1].spec_bucket_id() || id.bucket_id == old_a.buckets@[k2].spec_bucket_id()
                implies old_a.has_bucket(id.bucket_id) by {
            if id.bucket_id == old_a.buckets@[k1].spec_bucket_id() {
                old_a.lemma_index(k1);
            } else {
                old_a.lemma_index(k2);
            }
        }
        assert forall|id: ArenaItemId| id.bucket_id == old_a.buckets@[k1].spec_bucket_id() implies old_a.bucket_index(id.bucket_id) == k1 by {
            old_a.lemma_index(k1);
        }
        assert forall|id: ArenaItemId| id.bucket_id == old_a.buckets@[k2].spec_bucket_id() implies old_a.bucket_index(id.bucket_id) == k2 by {
            old_a.lemma_index(k2);
        }
    }

    pub fn allocate(&mut self, value: T) -> (r: ArenaItemId)
        requires
            old(self).wf(),
            old(self).can_alloc(),
        ensures
            final(self).wf(),
            !old(self).issued(r),
            final(self).issued(r),
            forall|id: ArenaItemId| old(self).issued(id) ==> final(self).issued(id),
            final(self)@ == old(self)@.insert(r, value),
            final(self).bucket_ids() == old(self).bucket_ids(),
            final(self).alloc_count() == old(self).alloc_count() + 1,
            alloc_step(*old(self), *final(self), value, r),
    {
        let ghost old_self = *self;
        let bucket = &mut self.buckets[0];
        let r = bucket.allocate(value);
        proof {
            Self::lemma_frame(&old_self, self, 0, 0);
            assert(self@ =~= old_self@.insert(r, value));
        }
        r
    }

    /// Removes the value of `id` and returns it; `None` when no bucket of this arena holds it.
    pub fn dealloc(&mut self, id: ArenaItemId) -> (r: Option<T>)
        requires
            old(self).wf(),
        ensures
            final(self).wf(),
            r == (if old(self)@.contains_key(id) { Some(old(self)@[id]) } else { None::<T> }),
            final(self)@ == old(self)@.remove(id),
            forall|x: ArenaItemId| #[trigger] final(self).issued(x) == old(self).issued(x),
            final(self).bucket_ids() == old(self).bucket_ids(),
            final(self).alloc_count() == old(self).alloc_count(),
    {
        let ghost old_self = *self;
        match self.position(id.bucket_id) {
            Some(i) => {
                let bucket = &mut self.buckets[i];
                let r = bucket.dealloc(id);
                proof {
                    Self::lemma_frame(&old_self, self, i as int, i as int);
                    old_self.lemma_lookup_at(i as int, id);
                    assert(self@ =~= old_self@.remove(id));
                }
                r
            },
            None => {
                assert(self@ =~= old_self@.remove(id));
                None
            },
        }
    }

    pub fn get(&self, id: ArenaItemId) -> (r: Option<&T>)
        requires
            self.wf(),
        ensures
            r.is_some() == self@.contains_key(id),
            r.is_some() ==> *r.unwrap() == self@[id],
    {
        match self.position(id.bucket_id) {
            Some(i) => {
                proof {
                    self.lemma_lookup_at(i as int, id);
                }
                self.buckets[i].get(id)
            },
            None => None,
        }
    }

    pub fn get_mut(&mut self, id: ArenaItemId) -> (r: Option<&mut T>)
        requires
            old(self).wf(),
        ensures
            r.is_some() == old(self)@.contains_key(id),
            r.is_some() ==> *r.unwrap() == old(self)@[id],
            final(self).wf(),
            r.is_some() ==> final(self)@ == old(self)@.insert(id, *final(r.unwrap())),
            r.is_none() ==> final(self)@ == old(self)@,
            forall|x: ArenaItemId| #[trigger] final(self).issued(x) == old(self).issued(x),
            final(self).bucket_ids() == old(self).bucket_ids(),
            final(self).alloc_count() == old(self).alloc_count(),
    {
        let ghost old_self = *self;
        match self.position(id.bucket_id) {
            Some(i) => {
                proof {
                    old_self.lemma_lookup_at(i as int, id);
                }
                let bucket = &mut self.buckets[i];
                let r = bucket.get_mut(id);
                proof {
                    let new_self = after_borrow(*self);
                    Self::lemma_frame(&old_self, &new_self, i as int, i as int);
                    if r.is_some() {
                        assert(new_self@ =~= old_self@.insert(id, *final(r.unwrap())));
                    } else {
                        assert(new_self@ =~= old_self@);
                    }
                }
                r
            },
            None => None,
        }
    }

    /// Views of the values of two different ids at once; each is `None` when this arena
    /// holds no value for that id.
    pub fn get_mut_pair(&mut self, first_id: ArenaItemId, second_id: ArenaItemId) -> (r: (
        Option<&mut T>,
        Option<&mut T>,
    ))
        requires
            old(self).wf(),
            first_id != second_id,
        ensures
            r.0.is_some() == old(self)@.contains_key(first_id),
            r.1.is_some() == old(self)@.contains_key(second_id),
            r.0.is_some() ==> *r.0.unwrap() == old(self)@[first_id],
            r.1.is_some() ==> *r.1.unwrap() == old(self)@[second_id],
            final(self).wf(),
            r.0.is_some() && r.1.is_some() ==> final(self)@ == old(self)@.insert(
                first_id,
                *final(r.0.unwrap()),
            ).insert(second_id, *final(r.1.unwrap())),
            r.0.is_some() && r.1.is_none() ==> final(self)@ == old(self)@.insert(
                first_id,
                *final(r.0.unwrap()),
            ),
            r.0.is_none() && r.1.is_some() ==> final(self)@ == old(self)@.insert(
                second_id,
                *final(r.1.unwrap()),
            ),
            r.0.is_none() && r.1.is_none() ==> final(self)@ == old(self)@,
            forall|x: ArenaItemId| #[trigger] final(self).issued(x) == old(self).issued(x),
            final(self).bucket_ids() == old(self).bucket_ids(),
            final(self).alloc_count() == old(self).alloc_count(),
    {
        let ghost old_self = *self;
        let first_pos = self.position(first_id.bucket_id);
        let second_pos = self.position(second_id.bucket_id);
        match (first_pos, second_pos) {
            (Some(i), Some(j)) => {
                proof {
                    old_self.lemma_lookup_at(i as int, first_id);
                    old_self.lemma_lookup_at(j as int, second_id);
                }
                if i == j {
                    let bucket = &mut self.buckets[i];
                    let r = bucket.get_mut_pair(first_id, second_id);
                    proof {
                        let new_self = after_borrow(*self);
                        Self::lemma_frame(&old_self, &new_self, i as int, i as int);
                        if r.0.is_some() && r.1.is_some() {
                            assert(new_self@ =~= old_self@.insert(first_id, *final(r.0.unwrap())).insert(second_id, *final(r.1.unwrap())));
                        } else if r.0.is_some() {
                            assert(new_self@ =~= old_self@.insert(first_id, *final(r.0.unwrap())));
                        } else if r.1.is_some() {
                            assert(new_self@ =~= old_self@.insert(second_id, *final(r.1.unwrap())));
                        } else {
                            assert(new_self@ =~= old_self@);
                        }
                    }
                    r
                } else {
                    let (lo, hi) = if i < j { (i, j) } else { (j, i) };
                    let (lo_bucket, hi_bucket) = two_mut(&mut self.buckets, lo, hi);
                    let (first_bucket, second_bucket) = if i < j { (lo_bucket, hi_bucket) } else { (hi_bucket, lo_bucket) };
                    let a = first_bucket.get_mut(first_id);
                    let b = second_bucket.get_mut(second_id);
                    proof {
                        let new_self = after_borrow(*self);
                        assert(new_self.wf());
                        Self::lemma_frame(&old_self, &new_self, i as int, j as int);
                        if a.is_some() && b.is_some() {
                            assert(new_self@ =~= old_self@.insert(first_id, *final(a.unwrap())).insert(second_id, *final(b.unwrap())));
                        } else if a.is_some() {
                            assert(new_self@ =~= old_self@.insert(first_id, *final(a.unwrap())));
                        } else if b.is_some() {
                            assert(new_self@ =~= old_self@.insert(second_id, *final(b.unwrap())));
                        } else {
                            assert(new_self@ =~= old_self@);
                        }
                    }
                    (a, b)
                }
            },
            (Some(i), None) => {
                proof {
                    old_self.lemma_lookup_at(i as int, first_id);
                }
                let bucket = &mut self.buckets[i];
                let a = bucket.get_mut(first_id);
                proof {
                    let new_self = after_borrow(*self);
                    Self::lemma_frame(&old_self, &new_self, i as int, i as int);
                    if a.is_some() {
                        assert(new_self@ =~= old_self@.insert(first_id, *final(a.unwrap())));
                    } else {
                        assert(new_self@ =~= old_self@);
                    }
                }
                (a, None)
            },
            (None, Some(j)) => {
                proof {
                    old_self.lemma_lookup_at(j as int, second_id);
                }
                let bucket = &mut self.buckets[j];
                let b = bucket.get_mut(second_id);
                proof {
                    let new_self = after_borrow(*self);
                    Self::lemma_frame(&old_self, &new_self, j as int, j as int);
                    if b.is_some() {
                        assert(new_self@ =~= old_self@.insert(second_id, *final(b.unwrap())));
                    } else {
                        assert(new_self@ =~= old_self@);
                    }
                }
                (None, b)
            },
            (None, None) => (None, None),
        }
    }

    /// Moves every bucket of `other` into this arena: ids issued by either stay valid and
    /// keep their values, without renumbering.
    pub fn merge(&mut self, other: HashmapArena<T>)
        requires
            old(self).wf(),
            other.wf(),
            old(self).bucket_ids().disjoint(other.bucket_ids()),
        ensures
            final(self).wf(),
            final(self)@ == old(self)@.union_prefer_right(other@),
            forall|x: ArenaItemId| #[trigger] final(self).issued(x) == (old(self).issued(x) || other.issued(x)),
            final(self).bucket_ids() == old(self).bucket_ids().union(other.bucket_ids()),
            final(self).alloc_count() == old(self).alloc_count(),
    {
        let ghost old_self = *self;
        let ghost other_ghost = other;
        let mut other = other;
        self.buckets.append(&mut other.buckets);
        proof {
            let n = old_self.buckets@.len();
            assert(self.buckets@ == old_self.buckets@ + other_ghost.buckets@);
            assert forall|i: int, j: int|
                0 <= i < self.buckets@.len() && 0 <= j < self.buckets@.len() && i != j
                    implies #[trigger] self.buckets@[i].spec_bucket_id() != #[trigger] self.buckets@[j].spec_bucket_id() by {
                if i < n && j >= n {
                    old_self.lemma_index(i);
                    other_ghost.lemma_index(j - n);
                    assert(old_self.bucket_ids().contains(self.buckets@[i].spec_bucket_id()));
                    assert(other_ghost.bucket_ids().contains(self.buckets@[j].spec_bucket_id()));
                } else if i >= n && j < n {
                    old_self.lemma_index(j);
                    other_ghost.lemma_index(i - n);
                    assert(old_self.bucket_ids().contains(self.buckets@[j].spec_bucket_id()));
                    assert(other_ghost.bucket_ids().contains(self.buckets@[i].spec_bucket_id()));
                } else if i >= n && j >= n {
                    assert(other_ghost.buckets@[i - n] == self.buckets@[i]);
                    assert(other_ghost.buckets@[j - n] == self.buckets@[j]);
                }
            }
            assert(self.wf());
            assert forall|b: BucketId| #[trigger] self.has_bucket(b) == (old_self.has_bucket(b) || other_ghost.has_bucket(b)) by {
                if old_self.has_bucket(b) {
                    let i = old_self.bucket_index(b);
                    old_self.lemma_index(i);
                    self.lemma_index(i);
                }
                if other_ghost.has_bucket(b) {
                    let j = other_ghost.bucket_index(b);
                    other_ghost.lemma_index(j);
                    self.lemma_index(j + n);
                }
                if self.has_bucket(b) {
                    let k = self.bucket_index(b);
                    if k < n {
                        old_self.lemma_index(k);
                    } else {
                        other_ghost.lemma_index(k - n);
                    }
                }
            }
            assert(self.bucket_ids() =~= old_self.bucket_ids().union(other_ghost.bucket_ids()));
            assert forall|x: ArenaItemId|
                #![trigger self.lookup(x)]
                #![trigger self.issued(x)]
                self.lookup(x) == (if other_ghost.has_bucket(x.bucket_id) { other_ghost.lookup(x) } else { old_self.lookup(x) })
                && self.issued(x) == (old_self.issued(x) || other_ghost.issued(x)) by {
                if old_self.has_bucket(x.bucket_id) {
                    let i = old_self.bucket_index(x.bucket_id);
                    old_self.lemma_lookup_at(i, x);
                    self.lemma_lookup_at(i, x);
                    assert(old_self.bucket_ids().contains(x.bucket_id));
                    assert(!other_ghost.bucket_ids().contains(x.bucket_id));
                }
                if other_ghost.has_bucket(x.bucket_id) {
                    let j = other_ghost.bucket_index(x.bucket_id);
                    other_ghost.lemma_lookup_at(j, x);
                    self.lemma_lookup_at(j + n, x);
                    assert(other_ghost.bucket_ids().contains(x.bucket_id));
                    assert(!old_self.bucket_ids().contains(x.bucket_id));
                }
            }
            assert forall|x: ArenaItemId| other_ghost@.contains_key(x) implies other_ghost.has_bucket(x.bucket_id) by {
                other_ghost.lemma_ids_in_buckets(x);
            }
            assert forall|x: ArenaItemId| #[trigger] self@.contains_key(x) == old_self@.union_prefer_right(other_ghost@).contains_key(x)
                && (self@.contains_key(x) ==> self@[x] == old_self@.union_prefer_right(other_ghost@)[x]) by {
                assert(self.lookup(x) == (if other_ghost.has_bucket(x.bucket_id) { other_ghost.lookup(x) } else { old_self.lookup(x) }));
                if other_ghost.has_bucket(x.bucket_id) {
                    assert(other_ghost.bucket_ids().contains(x.bucket_id));
                    assert(!old_self.bucket_ids().contains(x.bucket_id));
                    assert(!old_self.has_bucket(x.bucket_id));
                    assert(old_self.lookup(x).is_none());
                } else {
                    other_ghost.lemma_ids_in_buckets(x);
                    assert(!other_ghost@.contains_key(x));
                }
            }
            assert(self@ =~= old_self@.union_prefer_right(other_ghost@));
            self.lemma_index(0);
            old_self.lemma_index(0);
        }
    }

    pub fn owns(&self, id: ArenaItemId) -> (r: bool)
        requires
            self.wf(),
        ensures
            r == self.bucket_ids().contains(id.bucket_id),
    {
        self.position(id.bucket_id).is_some()
    }
}

/// How one `allocate` call relates the arena before it, the arena after it, the value
/// given and the id returned.
pub open spec fn alloc_step<T>(
    before: HashmapArena<T>,
    after: HashmapArena<T>,
    value: T,
    id: ArenaItemId,
) -> bool {
    &&& !before.issued(id)
    &&& after.issued(id)
    &&& forall|x: ArenaItemId| before.issued(x) ==> #[trigger] after.issued(x)
    &&& after@ == before@.insert(id, value)
}

proof fn lemma_issued_persists<T>(states: Seq<HashmapArena<T>>, values: Seq<T>, ids: Seq<ArenaItemId>, i: int, j: int, x: ArenaItemId)
    requires
        states.len() == values.len() + 1,
        ids.len() == values.len(),
        forall|k: int| 0 <= k < values.len() ==> alloc_step(#[trigger] states[k], states[k + 1], values[k], ids[k]),
        0 <= i <= j < states.len(),
        states[i].issued(x),
    ensures
        states[j].issued(x),
    decreases j - i,
{
    if i < j {
        lemma_issued_persists(states, values, ids, i, j - 1, x);
        assert(alloc_step(states[j - 1], states[j], values[j - 1], ids[j - 1]));
    }
}

/// Over any run of allocations on one arena, the ids returned are pairwise different, and
/// afterwards each one resolves to exactly the value given to its allocation.
pub proof fn lemma_alloc_sequence<T>(states: Seq<HashmapArena<T>>, values: Seq<T>, ids: Seq<ArenaItemId>)
    requires
        states.len() == values.len() + 1,
        ids.len() == values.len(),
        forall|k: int| 0 <= k < values.len() ==> alloc_step(#[trigger] states[k], states[k + 1], values[k], ids[k]),
    ensures
        forall|i: int, j: int| 0 <= i < j < ids.len() ==> #[trigger] ids[i] != #[trigger] ids[j],
        forall|i: int| 0 <= i < ids.len() ==> states.last()@.contains_key(#[trigger] ids[i])
            && states.last()@[ids[i]] == values[i],
    decreases values.len(),
{
    let n = values.len() as int;
    if n > 0 {
        let states0 = states.drop_last();
        let values0 = values.drop_last();
        let ids0 = ids.drop_last();
        assert forall|k: int| 0 <= k < values0.len() implies alloc_step(#[trigger] states0[k], states0[k + 1], values0[k], ids0[k]) by {
            assert(alloc_step(states[k], states[k + 1], values[k], ids[k]));
        }
        lemma_alloc_sequence(states0, values0, ids0);
        assert(alloc_step(states[n - 1], states[n], values[n - 1], ids[n - 1]));
        assert forall|i: int, j: int| 0 <= i < j < ids.len() implies #[trigger] ids[i] != #[trigger] ids[j] by {
            if j == n - 1 {
                assert(alloc_step(states[i], states[i + 1], values[i], ids[i]));
                lemma_issued_persists(states, values, ids, i + 1, n - 1, ids[i]);
            } else {
                assert(ids0[i] != ids0[j]);
            }
        }
        assert forall|i: int| 0 <= i < ids.len() implies states.last()@.contains_key(#[trigger] ids[i])
            && states.last()@[ids[i]] == values[i] by {
            if i < n - 1 {
                assert(states0.last() == states[n - 1]);
                assert(ids0[i] == ids[i]);
                assert(ids[i] != ids[n - 1]);
            }
        }
    }
}

} // verus!
