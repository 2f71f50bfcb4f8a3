//! The bounded map from transport identities to node identities.
//!
//! The overlay remembers which node identity last spoke for a transport
//! peer.  The map is bounded: once it is full, inserting a fresh pair may
//! silently drop the pair that has gone unused the longest.  It is backed
//! by an outside least-recently-used cache, used here with a capacity
//! bound only (no time-to-live), and seen by the proofs through three
//! names: its contents as a map of plain values, the capacity it was
//! created with, and the fact that no time-to-live was configured.

use vstd::prelude::*;

verus! {

/// Declares lru_time_cache::LruCache so that the cache can stand in
/// fields and signatures; its values stay opaque to the proofs.
#[verifier::external_type_specification]
#[verifier::external_body]
#[verifier::reject_recursive_types(Key)]
#[verifier::reject_recursive_types(Value)]
pub struct ExLruCache<Key, Value>(lru_time_cache::LruCache<Key, Value>);

/// The cache instantiation the overlay uses: peer-id bytes to node ids.
pub type PeerCache = lru_time_cache::LruCache<Vec<u8>, u64>;

/// What the cache holds, as a map of plain values.
pub uninterp spec fn lru_contents(c: PeerCache) -> Map<Seq<u8>, u64>;

/// The capacity bound the cache was created with.
pub uninterp spec fn lru_capacity(c: PeerCache) -> int;

/// Whether the cache was created without a time-to-live, so that reads
/// and inserts never drop entries by age.
pub uninterp spec fn lru_no_expiry(c: PeerCache) -> bool;

/// Relies on lru_time_cache::LruCache::with_capacity: a fresh cache is
/// empty, holds at most `capacity` pairs, and expires nothing by time.
#[verifier::external_body]
pub(crate) fn lru_new(capacity: usize) -> (r: PeerCache)
    ensures
        lru_contents(r).dom() == Set::<Seq<u8>>::empty(),
        lru_capacity(r) == capacity,
        lru_no_expiry(r),
{
    lru_time_cache::LruCache::with_capacity(capacity)
}

/// Relies on lru_time_cache::LruCache::insert: the pair is stored; every
/// other surviving pair was already stored with the same value; a pair
/// under a known key, or into a cache below capacity, displaces nothing.
/// A cache of capacity zero is excluded: making room in one would drain
/// one past the end of its recency list.
#[verifier::external_body]
pub(crate) fn lru_insert(c: &mut PeerCache, key: Vec<u8>, value: u64)
    requires
        lru_no_expiry(*old(c)),
        lru_capacity(*old(c)) >= 1,
    ensures
        lru_no_expiry(*final(c)),
        lru_capacity(*final(c)) == lru_capacity(*old(c)),
        lru_contents(*final(c)).contains_pair(key@, value),
        forall|k: Seq<u8>|
            lru_contents(*final(c)).dom().contains(k) && k != key@ ==> lru_contents(
                *old(c),
            ).contains_pair(k, lru_contents(*final(c))[k]),
        lru_contents(*old(c)).dom().contains(key@) ==> lru_contents(*final(c)) == lru_contents(
            *old(c),
        ).insert(key@, value),
        lru_contents(*old(c)).dom().finite() && lru_contents(*old(c)).dom().len() < lru_capacity(
            *old(c),
        ) ==> lru_contents(*final(c)) == lru_contents(*old(c)).insert(key@, value),
        lru_contents(*final(c)).dom().finite(),
{
    c.insert(key, value);
}

/// Relies on lru_time_cache::LruCache::get: hands back the value stored
/// under the key; with no time-to-live configured nothing is dropped.
#[verifier::external_body]
pub(crate) fn lru_get(c: &mut PeerCache, key: &Vec<u8>) -> (r: Option<u64>)
    requires
        lru_no_expiry(*old(c)),
    ensures
        lru_no_expiry(*final(c)),
        lru_contents(*final(c)) == lru_contents(*old(c)),
        lru_capacity(*final(c)) == lru_capacity(*old(c)),
        r == (if lru_contents(*old(c)).dom().contains(key@) {
            Some(lru_contents(*old(c))[key@])
        } else {
            None::<u64>
        }),
{
    c.get(key).copied()
}

} // verus!
