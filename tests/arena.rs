use num_traits::{FromPrimitive, ToPrimitive};
use rsx_tree::{Arena, ArenaItemId, BucketId, BucketIdGenerator, EntryId, HashmapArena, HashmapBucket, Unsupported, VecArena};

#[test]
fn id_encodes_bucket_high_and_entry_low() {
    let id = ArenaItemId { bucket_id: BucketId(3), entry_id: EntryId(7) };
    assert_eq!(id.to_u64(), (3u64 << 32) | 7);
    assert_eq!(ArenaItemId::from_u64((3u64 << 32) | 7), id);
}

#[test]
fn id_round_trip_at_the_extremes() {
    for (b, e) in [(0u32, 0u32), (u32::MAX, u32::MAX), (1, u32::MAX), (u32::MAX, 0)] {
        let id = ArenaItemId { bucket_id: BucketId(b), entry_id: EntryId(e) };
        assert_eq!(ArenaItemId::from_u64(id.to_u64()), id);
    }
    assert_eq!(ArenaItemId::from_u64(u64::MAX).to_u64(), u64::MAX);
}

#[test]
fn entry_ids_count_up() {
    let mut e = EntryId::new(5);
    assert_eq!(e.generate(), EntryId(5));
    assert_eq!(e, EntryId(6));
    assert_eq!(e.to_index(), 6);
}

#[test]
fn generator_hands_out_distinct_bucket_ids() {
    let mut ids = BucketIdGenerator::new();
    let a = ids.generate();
    let b = ids.generate();
    assert_eq!(a, BucketId(0));
    assert_eq!(b, BucketId(1));
}

#[test]
fn dealloc_leaves_other_entries_and_ids_are_not_reused() {
    let mut ids = BucketIdGenerator::new();
    let mut x: HashmapArena<&str> = HashmapArena::new(&mut ids);
    let a = x.allocate("a");
    let b = x.allocate("b");
    let c = x.allocate("c");
    assert_eq!(x.dealloc(b), Some("b"));
    assert_eq!(x.get(b), None);
    assert_eq!(x.get(a), Some(&"a"));
    assert_eq!(x.get(c), Some(&"c"));
    let d = x.allocate("d");
    assert_ne!(d, a);
    assert_ne!(d, b);
    assert_ne!(d, c);
    assert_eq!(x.get(d), Some(&"d"));
    assert_eq!(x.get(b), None);
    assert_eq!(x.dealloc(b), None);
}

#[test]
fn allocations_are_distinct_and_resolve_to_their_values() {
    let mut ids = BucketIdGenerator::new();
    let mut arena: HashmapArena<u32> = HashmapArena::new(&mut ids);
    let mut issued = Vec::new();
    for v in 0..50u32 {
        issued.push((arena.allocate(v * 10), v * 10));
    }
    for i in 0..issued.len() {
        for j in (i + 1)..issued.len() {
            assert_ne!(issued[i].0, issued[j].0);
        }
        assert_eq!(arena.get(issued[i].0), Some(&issued[i].1));
    }
}

#[test]
fn foreign_ids_are_not_found() {
    let mut ids = BucketIdGenerator::new();
    let mut first: HashmapArena<u8> = HashmapArena::new(&mut ids);
    let mut second: HashmapArena<u8> = HashmapArena::new(&mut ids);
    let a = first.allocate(1);
    let b = second.allocate(2);
    assert_eq!(first.get(b), None);
    assert_eq!(second.get(a), None);
    assert!(first.owns(a));
    assert!(!first.owns(b));
    assert_eq!(first.dealloc(b), None);
    assert_eq!(second.get(b), Some(&2));
}

#[test]
fn get_mut_changes_the_value() {
    let mut ids = BucketIdGenerator::new();
    let mut arena: HashmapArena<String> = HashmapArena::new(&mut ids);
    let a = arena.allocate("x".to_string());
    arena.get_mut(a).unwrap().push('y');
    assert_eq!(arena.get(a).map(|s| s.as_str()), Some("xy"));
}

#[test]
fn pair_writes_do_not_interfere() {
    let mut ids = BucketIdGenerator::new();
    let mut arena: HashmapArena<i32> = HashmapArena::new(&mut ids);
    let a = arena.allocate(1);
    let b = arena.allocate(2);
    {
        let (x, y) = arena.get_mut_pair(a, b);
        let x = x.unwrap();
        let y = y.unwrap();
        *x = 10;
        assert_eq!(*y, 2);
        *y = 20;
        assert_eq!(*x, 10);
    }
    assert_eq!(arena.get(a), Some(&10));
    assert_eq!(arena.get(b), Some(&20));
}

#[test]
fn pair_across_merged_buckets() {
    let mut ids = BucketIdGenerator::new();
    let mut first: HashmapArena<i32> = HashmapArena::new(&mut ids);
    let mut second: HashmapArena<i32> = HashmapArena::new(&mut ids);
    let a = first.allocate(1);
    let b = second.allocate(2);
    first.merge(second);
    {
        let (x, y) = first.get_mut_pair(b, a);
        *x.unwrap() += 100;
        *y.unwrap() += 1000;
    }
    assert_eq!(first.get(a), Some(&1001));
    assert_eq!(first.get(b), Some(&102));
    let (missing, present) = first.get_mut_pair(ArenaItemId { bucket_id: BucketId(99), entry_id: EntryId(0) }, a);
    assert!(missing.is_none());
    assert_eq!(present.map(|v| *v), Some(1001));
}

#[test]
fn merge_keeps_both_sides_and_allocation_continues() {
    let mut ids = BucketIdGenerator::new();
    let mut first: HashmapArena<&str> = HashmapArena::new(&mut ids);
    let mut second: HashmapArena<&str> = HashmapArena::new(&mut ids);
    let a = first.allocate("a");
    let b = second.allocate("b");
    first.merge(second);
    assert_eq!(first.get(a), Some(&"a"));
    assert_eq!(first.get(b), Some(&"b"));
    assert!(first.owns(b));
    let c = first.allocate("c");
    assert_eq!(c.bucket_id, a.bucket_id);
    assert_eq!(first.dealloc(b), Some("b"));
    assert_eq!(first.get(b), None);
}

#[test]
fn bucket_keeps_entry_numbers_increasing() {
    let mut ids = BucketIdGenerator::new();
    let mut bucket: HashmapBucket<char> = HashmapBucket::new(&mut ids);
    let a = bucket.allocate('a');
    let b = bucket.allocate('b');
    assert_eq!(a.entry_id, EntryId(0));
    assert_eq!(b.entry_id, EntryId(1));
    assert!(bucket.owns(a));
    assert_eq!(bucket.dealloc(a), Some('a'));
    let c = bucket.allocate('c');
    assert_eq!(c.entry_id, EntryId(2));
    assert_eq!(bucket.get(a), None);
    assert_eq!(bucket.get(c), Some(&'c'));
    let (x, y) = bucket.get_mut_pair(b, c);
    assert_eq!((x.map(|v| *v), y.map(|v| *v)), (Some('b'), Some('c')));
}

#[test]
fn vec_arena_indexes_by_entry() {
    let mut ids = BucketIdGenerator::new();
    let mut arena: VecArena<u64> = VecArena::new(&mut ids);
    let a = arena.allocate(5);
    let b = arena.allocate(6);
    assert_eq!(a.entry_id, EntryId(0));
    assert_eq!(b.entry_id, EntryId(1));
    assert!(arena.owns(a));
    assert_eq!(arena.get(b), Some(&6));
    *arena.get_mut(a).unwrap() = 50;
    {
        let (x, y) = arena.get_mut_pair(b, a);
        std::mem::swap(x.unwrap(), y.unwrap());
    }
    assert_eq!(arena.get(a), Some(&6));
    assert_eq!(arena.get(b), Some(&50));
}

#[test]
fn vec_arena_refuses_dealloc_and_merge() {
    let mut ids = BucketIdGenerator::new();
    let mut arena: VecArena<u8> = VecArena::new(&mut ids);
    let other: VecArena<u8> = VecArena::new(&mut ids);
    let a = arena.allocate(1);
    assert_eq!(arena.dealloc(a), Err(Unsupported));
    assert_eq!(arena.merge(other), Err(Unsupported));
    assert_eq!(arena.get(a), Some(&1));
}

#[test]
fn id_converts_through_the_primitive_traits() {
    let id = ArenaItemId { bucket_id: BucketId(2), entry_id: EntryId(9) };
    assert_eq!(ToPrimitive::to_u64(&id), Some((2u64 << 32) | 9));
    assert_eq!(ToPrimitive::to_i64(&id), None);
    assert_eq!(<ArenaItemId as FromPrimitive>::from_u64((2u64 << 32) | 9), Some(id));
    assert_eq!(<ArenaItemId as FromPrimitive>::from_i64(5), None);
}

fn store_three<A: Arena<u32>>(arena: &mut A) -> Vec<ArenaItemId> {
    vec![Arena::allocate(arena, 1), Arena::allocate(arena, 2), Arena::allocate(arena, 3)]
}

#[test]
fn both_strategies_share_one_interface() {
    let mut ids = BucketIdGenerator::new();
    let mut map_backed: HashmapArena<u32> = HashmapArena::new(&mut ids);
    let mut vec_backed: VecArena<u32> = VecArena::new(&mut ids);
    let m = store_three(&mut map_backed);
    let v = store_three(&mut vec_backed);
    assert_eq!(Arena::get(&map_backed, m[1]), Some(&2));
    assert_eq!(Arena::get(&vec_backed, v[1]), Some(&2));
    *Arena::get_mut(&mut vec_backed, v[0]).unwrap() = 7;
    assert_eq!(Arena::get(&vec_backed, v[0]), Some(&7));
    {
        let (a, b) = Arena::get_mut_pair(&mut map_backed, m[0], m[2]);
        std::mem::swap(a.unwrap(), b.unwrap());
    }
    assert_eq!(Arena::get(&map_backed, m[0]), Some(&3));
    assert_eq!(Arena::dealloc(&mut map_backed, m[1]), Ok(Some(2)));
    assert_eq!(Arena::dealloc(&mut map_backed, m[1]), Ok(None));
    assert_eq!(Arena::dealloc(&mut vec_backed, v[1]), Err(Unsupported));
    assert_eq!(Arena::get(&vec_backed, v[1]), Some(&2));
}

#[test]
fn only_the_map_strategy_merges() {
    let mut ids = BucketIdGenerator::new();
    let mut first: HashmapArena<u32> = HashmapArena::new(&mut ids);
    let mut second: HashmapArena<u32> = HashmapArena::new(&mut ids);
    let b = Arena::allocate(&mut second, 9);
    assert_eq!(Arena::merge(&mut first, second), Ok(()));
    assert_eq!(Arena::get(&first, b), Some(&9));
    let mut left: VecArena<u32> = VecArena::new(&mut ids);
    let right: VecArena<u32> = VecArena::new(&mut ids);
    assert_eq!(Arena::merge(&mut left, right), Err(Unsupported));
}
