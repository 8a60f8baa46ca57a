//! The page cache's recency order, kept by `hashlink::LruCache`.
//!
//! The cache holds page ids only; the pages themselves live with the page
//! manager's per-page status.
use hashlink::LruCache;
use vstd::prelude::*;

verus! {

#[verifier::external_type_specification]
#[verifier::external_body]
#[verifier::reject_recursive_types(K)]
#[verifier::reject_recursive_types(V)]
#[verifier::reject_recursive_types(S)]
pub struct ExLruCache<K, V, S>(hashlink::LruCache<K, V, S>);

#[verifier::external_type_specification]
#[verifier::external_body]
pub struct ExDefaultHashBuilder(hashlink::DefaultHashBuilder);

/// Keys of a cache, from the least to the most recently used.
pub uninterp spec fn lru_order(c: LruCache<u64, ()>) -> Seq<u64>;

/// The number of keys a cache was made to hold.
pub uninterp spec fn lru_bound(c: LruCache<u64, ()>) -> nat;

/// Relies on `LruCache::new`: an empty cache that holds at most `capacity` keys.
#[verifier::external_body]
pub(crate) fn lru_new(capacity: usize) -> (r: LruCache<u64, ()>)
    ensures
        lru_order(r) == Seq::<u64>::empty(),
        lru_bound(r) == capacity,
{
    LruCache::new(capacity)
}

/// Relies on `LruCache::get`: a present key moves to the most recently used end.
#[verifier::external_body]
pub(crate) fn lru_touch(c: &mut LruCache<u64, ()>, k: u64) -> (r: bool)
    ensures
        r == lru_order(*old(c)).contains(k),
        lru_bound(*final(c)) == lru_bound(*old(c)),
        !r ==> lru_order(*final(c)) == lru_order(*old(c)),
        r ==> exists|i: int|
            0 <= i < lru_order(*old(c)).len() && lru_order(*old(c))[i] == k && lru_order(*final(c))
                == lru_order(*old(c)).remove(i).push(k),
{
    c.get(&k).is_some()
}

/// Relies on `LruCache::insert` for a key not present: the key goes to the most recently
/// used end, and the least recently used key leaves when the bound is passed.
#[verifier::external_body]
pub(crate) fn lru_insert(c: &mut LruCache<u64, ()>, k: u64)
    requires
        !lru_order(*old(c)).contains(k),
    ensures
        lru_bound(*final(c)) == lru_bound(*old(c)),
        lru_order(*old(c)).len() + 1 <= lru_bound(*old(c)) ==> lru_order(*final(c)) == lru_order(
            *old(c),
        ).push(k),
        lru_order(*old(c)).len() + 1 > lru_bound(*old(c)) ==> lru_order(*final(c)) == lru_order(
            *old(c),
        ).push(k).drop_first(),
{
    c.insert(k, ());
}

/// Relies on `LruCache::len`: the number of keys held.
#[verifier::external_body]
pub(crate) fn lru_len(c: &LruCache<u64, ()>) -> (r: usize)
    ensures
        r == lru_order(*c).len(),
{
    c.len()
}

/// Relies on `LruCache::capacity`: the bound the cache was made with.
#[verifier::external_body]
pub(crate) fn lru_capacity(c: &LruCache<u64, ()>) -> (r: usize)
    ensures
        r == lru_bound(*c),
{
    c.capacity()
}

/// Relies on `LruCache::remove_lru`: takes the least recently used key.
#[verifier::external_body]
pub(crate) fn lru_pop(c: &mut LruCache<u64, ()>) -> (r: Option<u64>)
    ensures
        lru_bound(*final(c)) == lru_bound(*old(c)),
        lru_order(*old(c)).len() == 0 ==> r is None && lru_order(*final(c)) == lru_order(*old(c)),
        lru_order(*old(c)).len() > 0 ==> r == Some(lru_order(*old(c))[0]) && lru_order(*final(c))
            == lru_order(*old(c)).drop_first(),
{
    c.remove_lru().map(|(k, _)| k)
}

} // verus!
