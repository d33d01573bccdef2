//! Bounded caches: the contract that every eviction policy keeps, and the
//! least-recently-used policy.

use std::hash::Hash;
use vstd::prelude::*;

pub mod lru;

verus! {

/// A clone of a key is the key: nothing but an equal value comes out of
/// `clone`. It holds of the integers and of `String`.
pub open spec fn clone_yields_equal<K: Clone>() -> bool {
    forall|key: K, copy: K| cloned(key, copy) ==> key == copy
}

/// Cloning an integer key or a `String` key yields an equal key.
pub proof fn lemma_clone_yields_equal()
    ensures
        clone_yields_equal::<u8>(),
        clone_yields_equal::<u16>(),
        clone_yields_equal::<u32>(),
        clone_yields_equal::<u64>(),
        clone_yields_equal::<usize>(),
        clone_yields_equal::<String>(),
{
}

/// A bounded key-value cache. An implementation chooses which entry leaves
/// when room is needed; what is stated here holds whatever it chooses.
pub trait Cache<K, V>: Sized where K: Eq + Hash {
    /// What the key type must satisfy for `new` to build a cache.
    spec fn key_model() -> bool;

    /// Well-formedness: what every cache built by `new` satisfies.
    spec fn wf(&self) -> bool;

    /// The entries the cache holds.
    spec fn entries(&self) -> Map<K, V>;

    /// The most entries the cache will hold.
    spec fn limit(&self) -> nat;

    /// Whether `put` stores the given pair in this cache.
    spec fn accepts(&self, key: K, value: V) -> bool;

    /// The entries of this cache after it has stored the given pair: the
    /// policy's choice of what leaves is in here.
    spec fn stored(&self, key: K, value: V) -> Map<K, V>;

    /// The message with which `put` refuses the given pair.
    spec fn refusal(&self, key: K, value: V) -> Seq<char>;

    /// Instantiates a new, empty cache that holds up to `capacity` entries.
    fn new(capacity: usize) -> (cache: Self)
        requires
            Self::key_model(),
        ensures
            cache.wf(),
            cache.entries() == Map::<K, V>::empty(),
            cache.limit() > 0,
            capacity > 0 ==> cache.limit() == capacity,
    ;

    /// Puts a key-value pair into the cache, which succeeds exactly where
    /// the cache accepts the pair. On success the pair is in the cache, at
    /// most one other entry has left it, and none has left it where the key
    /// was present or room was left. On failure nothing changes.
    fn put(&mut self, key: K, value: V) -> (r: Result<(), &'static str>)
        requires
            old(self).wf(),
        ensures
            final(self).wf(),
            r is Ok <==> old(self).accepts(key, value),
            final(self).limit() == old(self).limit(),
            final(self).entries().dom().finite(),
            final(self).entries().len() <= final(self).limit(),
            r is Ok ==> {
                &&& final(self).entries() == old(self).stored(key, value)
                &&& final(self).entries().contains_pair(key, value)
                &&& final(self).entries().remove(key).submap_of(old(self).entries())
                &&& old(self).entries().len() <= final(self).entries().remove(key).len() + 1
                &&& (old(self).entries().contains_key(key) || old(self).entries().len() < old(
                    self,
                ).limit()) ==> final(self).entries() == old(self).entries().insert(key, value)
            },
            r matches Err(msg) ==> final(self).entries() == old(self).entries() && msg@ == old(self).refusal(
                key,
                value,
            ),
    ;

    /// Returns the stored value against the given key. The entries stay as
    /// they are; an implementation may note the access.
    fn get(&mut self, key: &K) -> (r: Option<&V>)
        requires
            old(self).wf(),
        ensures
            final(self).wf(),
            final(self).limit() == old(self).limit(),
            final(self).entries() == old(self).entries(),
            r == (if old(self).entries().contains_key(*key) {
                Some(&old(self).entries()[*key])
            } else {
                None
            }),
    ;

    /// Removes one entry, chosen by the policy, and returns its value;
    /// nothing where the cache is empty.
    fn evact(&mut self) -> (r: Option<V>)
        requires
            old(self).wf(),
        ensures
            final(self).wf(),
            final(self).limit() == old(self).limit(),
            match r {
                Some(value) => exists|key: K|
                    #![trigger old(self).entries().contains_key(key)]
                    old(self).entries().contains_pair(key, value) && final(self).entries() == old(
                        self,
                    ).entries().remove(key),
                None => old(self).entries().dom() == Set::<K>::empty() && final(self).entries() == old(
                    self,
                ).entries(),
            },
    ;
}

} // verus!
