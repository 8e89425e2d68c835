use vstd::prelude::*;
use fnv::FnvHashMap;

verus! {

/// The map that a bucket keeps its entries in, keyed by entry number.
pub type EntryMap<V> = FnvHashMap<u32, V>;

/// fnv's hasher, named so that the map type can appear in signatures; nothing is assumed
/// of it.
#[verifier::external_type_specification]
#[verifier::external_body]
pub struct ExFnvHasher(fnv::FnvHasher);

/// std's `BuildHasherDefault`, through which the map builds fnv hashers; nothing is assumed
/// of it.
#[verifier::external_type_specification]
#[verifier::external_body]
#[verifier::reject_recursive_types(H)]
pub struct ExBuildHasherDefault<H>(std::hash::BuildHasherDefault<H>);

/// Relies on `Default` for std's `HashMap` with fnv's hasher: the new map is empty.
#[verifier::external_body]
pub(crate) fn map_new<V>() -> (r: EntryMap<V>)
    ensures
        r@ =~= Map::empty(),
{
    FnvHashMap::default()
}

/// Relies on `HashMap::insert`: the key maps to the value afterwards, nothing else changes.
#[verifier::external_body]
pub(crate) fn map_insert<V>(m: &mut EntryMap<V>, k: u32, v: V)
    ensures
        final(m)@ == old(m)@.insert(k, v),
{
    m.insert(k, v);
}

/// Relies on `HashMap::remove`: the key's value is taken out and returned, if there was one.
#[verifier::external_body]
pub(crate) fn map_remove<V>(m: &mut EntryMap<V>, k: u32) -> (r: Option<V>)
    ensures
        final(m)@ == old(m)@.remove(k),
        r == (if old(m)@.contains_key(k) { Some(old(m)@[k]) } else { None::<V> }),
{
    m.remove(&k)
}

/// Relies on `HashMap::get`: the value of the key, if there is one.
#[verifier::external_body]
pub(crate) fn map_get<V>(m: &EntryMap<V>, k: u32) -> (r: Option<&V>)
    ensures
        r.is_some() == m@.contains_key(k),
        r.is_some() ==> *r.unwrap() == m@[k],
{
    m.get(&k)
}

/// Relies on `HashMap::get_mut`: a view of the key's value; what is written through it
/// becomes the key's value.
#[verifier::external_body]
pub(crate) fn map_get_mut<V>(m: &mut EntryMap<V>, k: u32) -> (r: Option<&mut V>)
    ensures
        r.is_some() == old(m)@.contains_key(k),
        r.is_some() ==> *r.unwrap() == old(m)@[k] && final(m)@ == old(m)@.insert(
            k,
            *final(r.unwrap()),
        ),
        r.is_none() ==> final(m)@ == old(m)@,
{
    m.get_mut(&k)
}

/// Relies on `HashMap::get_disjoint_mut` (which panics on equal keys, excluded here): views
/// of the values of two keys at once.
#[verifier::external_body]
pub(crate) fn map_get_pair_mut<V>(m: &mut EntryMap<V>, k1: u32, k2: u32) -> (r: (
    Option<&mut V>,
    Option<&mut V>,
))
    requires
        k1 != k2,
    ensures
        r.0.is_some() == old(m)@.contains_key(k1),
        r.1.is_some() == old(m)@.contains_key(k2),
        r.0.is_some() ==> *r.0.unwrap() == old(m)@[k1],
        r.1.is_some() ==> *r.1.unwrap() == old(m)@[k2],
        r.0.is_some() && r.1.is_some() ==> final(m)@ == old(m)@.insert(
            k1,
            *final(r.0.unwrap()),
        ).insert(k2, *final(r.1.unwrap())),
        r.0.is_some() && r.1.is_none() ==> final(m)@ == old(m)@.insert(k1, *final(r.0.unwrap())),
        r.0.is_none() && r.1.is_some() ==> final(m)@ == old(m)@.insert(k2, *final(r.1.unwrap())),
        r.0.is_none() && r.1.is_none() ==> final(m)@ == old(m)@,
{
    let [a, b] = m.get_disjoint_mut([&k1, &k2]);
    (a, b)
}

} // verus!
