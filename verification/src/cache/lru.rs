//! The least-recently-used cache: a hash map from key to value and list
//! slot, and a recency list of the keys with the most recently used at its
//! head. Lookup, insertion and eviction each take constant time.

use super::{clone_yields_equal, Cache};
use crate::utils::doubly_linked_list::DoublyLinkedList;
use std::collections::HashMap;
use std::hash::Hash;
use vstd::prelude::*;
use vstd::std_specs::hash::*;

verus! {

/// The abstract state of an LRU cache: its capacity, its entries, and its
/// keys from the most to the least recently used.
#[verifier::ext_equal]
#[verifier::reject_recursive_types(K)]
pub struct LruView<K, V> {
    pub capacity: nat,
    pub entries: Map<K, V>,
    pub order: Seq<K>,
}

/// `order` with `key` moved to the front.
pub open spec fn promoted<K>(order: Seq<K>, key: K) -> Seq<K> {
    seq![key] + order.remove(order.index_of(key))
}

impl<K, V> LruView<K, V> {
    /// The recency order lists exactly the keys of the entries, each once,
    /// and they are no more than the capacity.
    pub open spec fn wf(self) -> bool {
        &&& self.capacity > 0
        &&& self.order.no_duplicates()
        &&& self.order.len() <= self.capacity
        &&& self.entries.dom().finite()
        &&& forall|key: K| #[trigger] self.entries.contains_key(key) <==> self.order.contains(key)
    }

    /// An empty cache of the given capacity.
    pub open spec fn fresh(capacity: nat) -> Self {
        LruView { capacity, entries: Map::empty(), order: Seq::empty() }
    }

    /// The value stored for `key`.
    pub open spec fn value(self, key: K) -> Option<V> {
        if self.entries.contains_key(key) {
            Some(self.entries[key])
        } else {
            None
        }
    }

    /// The cache after `get(key)`: a key that is present becomes the most
    /// recently used.
    pub open spec fn get(self, key: K) -> Self {
        if self.entries.contains_key(key) {
            LruView { capacity: self.capacity, entries: self.entries, order: promoted(self.order, key) }
        } else {
            self
        }
    }

    /// The value that `evict` removes: that of the least recently used key.
    pub open spec fn evicted(self) -> Option<V> {
        if self.order.len() > 0 {
            Some(self.entries[self.order.last()])
        } else {
            None
        }
    }

    /// The cache after `evict`: without its least recently used entry.
    pub open spec fn evict(self) -> Self {
        if self.order.len() > 0 {
            LruView {
                capacity: self.capacity,
                entries: self.entries.remove(self.order.last()),
                order: self.order.drop_last(),
            }
        } else {
            self
        }
    }

    /// The cache after `put(key, value)`. A key that is present gets the
    /// new value and becomes the most recently used. A new key becomes the
    /// most recently used, after the least recently used entry has left
    /// where the cache was full.
    pub open spec fn put(self, key: K, value: V) -> Self {
        if self.entries.contains_key(key) {
            LruView {
                capacity: self.capacity,
                entries: self.entries.insert(key, value),
                order: promoted(self.order, key),
            }
        } else {
            let room = if self.order.len() >= self.capacity {
                self.evict()
            } else {
                self
            };
            LruView {
                capacity: self.capacity,
                entries: room.entries.insert(key, value),
                order: seq![key] + room.order,
            }
        }
    }

    /// The number of entries is the number of keys in the recency order.
    pub proof fn lemma_len(self)
        requires
            self.wf(),
        ensures
            self.entries.len() == self.order.len(),
            self.entries.len() <= self.capacity,
    {
        self.order.unique_seq_to_set();
        assert(self.order.to_set() =~= self.entries.dom());
    }

    /// Promoting a key that is present keeps the same keys, each once.
    pub proof fn lemma_promoted(self, key: K)
        requires
            self.wf(),
            self.entries.contains_key(key),
        ensures
            promoted(self.order, key).no_duplicates(),
            promoted(self.order, key).len() == self.order.len(),
            promoted(self.order, key)[0] == key,
            forall|other: K| #[trigger] promoted(self.order, key).contains(other) <==> self.order.contains(other),
    {
        let p = self.order.index_of(key);
        assert(self.order.contains(key));
        let rest = self.order.remove(p);
        let after = promoted(self.order, key);
        assert forall|k: int| 0 <= k < rest.len() implies #[trigger] rest[k] == self.order[if k < p {
            k
        } else {
            k + 1
        }] by {}
        assert(after.no_duplicates());
        assert forall|other: K| #[trigger] after.contains(other) <==> self.order.contains(other) by {
            if self.order.contains(other) {
                let k = choose|k: int| 0 <= k < self.order.len() && self.order[k] == other;
                if k == p {
                    assert(after[0] == other);
                } else if k < p {
                    assert(after[k + 1] == other);
                } else {
                    assert(after[k] == other);
                }
            }
        }
    }

    /// `get` keeps the cache well formed and its entries untouched.
    pub proof fn lemma_get(self, key: K)
        requires
            self.wf(),
        ensures
            self.get(key).wf(),
            self.get(key).capacity == self.capacity,
            self.get(key).entries == self.entries,
            self.entries.contains_key(key) ==> self.get(key).order.first() == key,
    {
        if self.entries.contains_key(key) {
            self.lemma_promoted(key);
        }
    }

    /// `evict` keeps the cache well formed and removes the last key of the
    /// recency order.
    pub proof fn lemma_evict(self)
        requires
            self.wf(),
        ensures
            self.evict().wf(),
            self.evict().capacity == self.capacity,
            self.order.len() > 0 ==> {
                &&& self.entries.contains_key(self.order.last())
                &&& self.evict().order.len() == self.order.len() - 1
                &&& !self.evict().entries.contains_key(self.order.last())
            },
            self.order.len() == 0 ==> self.evict() == self && self.entries.dom() == Set::<K>::empty(),
    {
        if self.order.len() > 0 {
            let last = self.order.last();
            let after = self.evict();
            assert(self.order.contains(last));
            assert forall|key: K| #[trigger] after.entries.contains_key(key) <==> after.order.contains(key) by {
                if self.order.contains(key) && key != last {
                    let k = choose|k: int| 0 <= k < self.order.len() && self.order[k] == key;
                    assert(after.order[k] == key);
                }
            }
        } else {
            assert(self.entries.dom() =~= Set::<K>::empty()) by {
                assert forall|key: K| !self.entries.dom().contains(key) by {
                    assert(self.entries.contains_key(key) <==> self.order.contains(key));
                }
            }
        }
    }

    /// `put` keeps the cache well formed, stores the pair, and makes its
    /// key the most recently used.
    pub proof fn lemma_put(self, key: K, value: V)
        requires
            self.wf(),
        ensures
            self.put(key, value).wf(),
            self.put(key, value).capacity == self.capacity,
            self.put(key, value).entries.contains_pair(key, value),
            self.put(key, value).order.first() == key,
            self.put(key, value).entries.len() <= self.capacity,
            self.entries.contains_key(key) ==> self.put(key, value).entries.len() == self.entries.len(),
    {
        let after = self.put(key, value);
        if self.entries.contains_key(key) {
            self.lemma_promoted(key);
            assert forall|other: K| #[trigger] after.entries.contains_key(other) <==> after.order.contains(
                other,
            ) by {
                assert(self.entries.contains_key(other) <==> self.order.contains(other));
            }
            assert(after.entries.dom() =~= self.entries.dom());
        } else {
            self.lemma_evict();
            let room = if self.order.len() >= self.capacity {
                self.evict()
            } else {
                self
            };
            assert(!room.order.contains(key)) by {
                assert(room.entries.contains_key(key) <==> room.order.contains(key));
            }
            assert forall|other: K| #[trigger] after.entries.contains_key(other) <==> after.order.contains(
                other,
            ) by {
                assert(room.entries.contains_key(other) <==> room.order.contains(other));
                if other == key {
                    assert(after.order[0] == key);
                } else if room.order.contains(other) {
                    let k = choose|k: int| 0 <= k < room.order.len() && room.order[k] == other;
                    assert(after.order[k + 1] == other);
                }
            }
        }
        after.lemma_len();
        self.lemma_len();
    }
    /// What was just put is what a lookup finds.
    pub proof fn lemma_put_then_get(self, key: K, value: V)
        requires
            self.wf(),
        ensures
            self.put(key, value).value(key) == Some(value),
            self.put(key, value).get(key).value(key) == Some(value),
    {
        self.lemma_put(key, value);
    }

    /// A lookup changes the value of no key.
    pub proof fn lemma_get_keeps_values(self, key: K, other: K)
        requires
            self.wf(),
        ensures
            self.get(key).value(other) == self.value(other),
    {
    }

    /// Putting a key twice keeps the second value and adds no entry.
    pub proof fn lemma_put_twice(self, key: K, first: V, second: V)
        requires
            self.wf(),
        ensures
            self.put(key, first).put(key, second).value(key) == Some(second),
            self.put(key, first).put(key, second).entries.len() == self.put(key, first).entries.len(),
    {
        self.lemma_put(key, first);
        self.put(key, first).lemma_put(key, second);
    }

    /// The cache after putting `keys[i]` with `values[i]`, for each `i` in turn.
    pub open spec fn put_all(self, keys: Seq<K>, values: Seq<V>) -> Self
        decreases keys.len(),
    {
        if keys.len() == 0 || values.len() != keys.len() {
            self
        } else {
            self.put_all(keys.drop_last(), values.drop_last()).put(keys.last(), values.last())
        }
    }

    /// After distinct keys were put into an empty cache, the cache holds
    /// the last of them, as many as fit, the latest first.
    pub proof fn lemma_put_all(capacity: nat, keys: Seq<K>, values: Seq<V>)
        requires
            capacity > 0,
            keys.no_duplicates(),
            keys.len() == values.len(),
        ensures
            ({
                let cache = Self::fresh(capacity).put_all(keys, values);
                let n = keys.len() as int;
                &&& cache.wf()
                &&& cache.capacity == capacity
                &&& cache.order.len() == if n <= capacity {
                    n
                } else {
                    capacity as int
                }
                &&& forall|j: int|
                    0 <= j < cache.order.len() ==> #[trigger] cache.order[j] == keys[n - 1 - j]
                        && cache.entries[keys[n - 1 - j]] == values[n - 1 - j]
            }),
        decreases keys.len(),
    {
        let n = keys.len() as int;
        if n == 0 {
            assert(Self::fresh(capacity).wf());
        } else {
            let first_keys = keys.drop_last();
            let first_values = values.drop_last();
            Self::lemma_put_all(capacity, first_keys, first_values);
            let before = Self::fresh(capacity).put_all(first_keys, first_values);
            let key = keys.last();
            let value = values.last();
            let cache = before.put(key, value);
            before.lemma_put(key, value);
            before.lemma_evict();
            assert(!before.order.contains(key)) by {
                if before.order.contains(key) {
                    let j = choose|j: int| 0 <= j < before.order.len() && before.order[j] == key;
                    assert(before.order[j] == first_keys[n - 2 - j]);
                    assert(keys[n - 2 - j] == keys[n - 1]);
                }
            }
            assert(!before.entries.contains_key(key));
            assert forall|j: int| 0 <= j < cache.order.len() implies #[trigger] cache.order[j] == keys[n - 1
                - j] && cache.entries[keys[n - 1 - j]] == values[n - 1 - j] by {
                if j > 0 {
                    assert(cache.order[j] == before.order[j - 1]);
                    assert(before.order[j - 1] == first_keys[n - 2 - (j - 1)]);
                    assert(first_values[n - 1 - j] == values[n - 1 - j]);
                    assert(keys[n - 1 - j] != key);
                    if before.order.len() >= capacity {
                        assert(before.order.last() == first_keys[n - 2 - (before.order.len() - 1)]);
                        assert(keys[n - 1 - j] != before.order.last());
                    }
                }
            }
        }
    }

    /// Eviction follows the order of access: after one key more than fit
    /// was put into an empty cache, the keys being distinct, the first is
    /// gone and all the others are found with their values.
    pub proof fn lemma_eviction_order(capacity: nat, keys: Seq<K>, values: Seq<V>)
        requires
            capacity > 0,
            keys.no_duplicates(),
            keys.len() == values.len(),
            keys.len() == capacity + 1,
        ensures
            Self::fresh(capacity).put_all(keys, values).value(keys[0]) is None,
            forall|i: int|
                1 <= i <= capacity ==> #[trigger] Self::fresh(capacity).put_all(keys, values).value(keys[i])
                    == Some(values[i]),
    {
        let cache = Self::fresh(capacity).put_all(keys, values);
        Self::lemma_put_all(capacity, keys, values);
        assert(!cache.order.contains(keys[0])) by {
            if cache.order.contains(keys[0]) {
                let j = choose|j: int| 0 <= j < cache.order.len() && cache.order[j] == keys[0];
                assert(cache.order[j] == keys[capacity - j]);
            }
        }
        assert forall|i: int| 1 <= i <= capacity implies #[trigger] cache.value(keys[i]) == Some(values[i]) by {
            assert(cache.order[capacity - i] == keys[i]);
            assert(cache.order.contains(keys[i]));
        }
    }
}

/// What the map keeps for a key: its value and the slot of its node in
/// the recency list.
struct CacheValue<V> {
    value: V,
    index: usize,
}

/// A cache that evicts the least recently used entry.
#[verifier::reject_recursive_types(K)]
pub struct LRUCache<K, V> {
    capacity: usize,
    map: HashMap<K, CacheValue<V>>,
    lru_order: DoublyLinkedList<K>,
}

impl<K, V> View for LRUCache<K, V> {
    type V = LruView<K, V>;

    closed spec fn view(&self) -> LruView<K, V> {
        LruView {
            capacity: self.capacity as nat,
            entries: self.map@.map_values(|entry: CacheValue<V>| entry.value),
            order: self.lru_order@.items(),
        }
    }
}

impl<K: Eq + Hash + Clone, V> LRUCache<K, V> {
    /// Each entry of the map names the slot of its key's node, and each
    /// node of the recency list holds the key of an entry.
    pub closed spec fn inv(&self) -> bool {
        &&& obeys_key_model::<K>()
        &&& clone_yields_equal::<K>()
        &&& self.capacity > 0
        &&& self.lru_order.wf()
        &&& self.lru_order@.capacity() == self.capacity
        &&& forall|key: K| #[trigger]
            self.map@.contains_key(key) ==> {
                &&& self.lru_order@.order.contains(self.map@[key].index as int)
                &&& self.lru_order@.values[self.map@[key].index as int] == Some(key)
            }
        &&& forall|p: int|
            0 <= p < self.lru_order@.order.len() ==> {
                let key = self.lru_order@.values[#[trigger] self.lru_order@.order[p]]->0;
                &&& self.map@.contains_key(key)
                &&& self.map@[key].index as int == self.lru_order@.order[p]
            }
    }

    /// The invariant makes the view well formed.
    proof fn lemma_view_wf(&self)
        requires
            self.inv(),
        ensures
            self@.wf(),
    {
        broadcast use group_hash_axioms;

        let list = self.lru_order@;
        let view = self@;
        list.lemma_len();
        assert forall|p: int, q: int| 0 <= p < view.order.len() && 0 <= q < view.order.len() && p != q implies view.order[p]
            != view.order[q] by {
            assert(self.map@[view.order[p]].index as int == list.order[p]);
            assert(self.map@[view.order[q]].index as int == list.order[q]);
        }
        assert forall|key: K| #[trigger] view.entries.contains_key(key) <==> view.order.contains(key) by {
            if self.map@.contains_key(key) {
                let i = self.map@[key].index as int;
                let p = choose|p: int| 0 <= p < list.order.len() && list.order[p] == i;
                assert(view.order[p] == key);
            }
            if view.order.contains(key) {
                let p = choose|p: int| 0 <= p < view.order.len() && view.order[p] == key;
                assert(list.values[list.order[p]]->0 == key);
            }
        }
        vstd::seq_lib::seq_to_set_is_finite(view.order);
        assert(view.entries.dom() =~= view.order.to_set());
    }
}

impl<K, V> Cache<K, V> for LRUCache<K, V> where K: Eq + Hash + Clone {
    /// Equal keys hash alike, and a clone of a key is the key.
    open spec fn key_model() -> bool {
        obeys_key_model::<K>() && clone_yields_equal::<K>()
    }

    open spec fn wf(&self) -> bool {
        &&& self@.wf()
        &&& self.inv()
    }

    open spec fn entries(&self) -> Map<K, V> {
        self@.entries
    }

    open spec fn limit(&self) -> nat {
        self@.capacity
    }

    /// An LRU cache makes room for whatever it is given.
    open spec fn accepts(&self, key: K, value: V) -> bool {
        true
    }

    open spec fn stored(&self, key: K, value: V) -> Map<K, V> {
        self@.put(key, value).entries
    }

    /// Nothing is refused; the message is that of a full recency list.
    open spec fn refusal(&self, key: K, value: V) -> Seq<char> {
        "Arena is full!"@
    }

    /// An empty cache of the given capacity; of ten where `capacity` is zero.
    fn new(capacity: usize) -> (cache: Self)
        ensures
            cache@ == LruView::<K, V>::fresh(
                if capacity > 0 {
                    capacity as nat
                } else {
                    10
                },
            ),
    {
        broadcast use group_hash_axioms;

        let capacity: usize = if capacity > 0 {
            capacity
        } else {
            10
        };
        let cache = LRUCache {
            map: HashMap::with_capacity(capacity),
            capacity,
            lru_order: DoublyLinkedList::with_capacity(capacity),
        };
        proof {
            crate::utils::doubly_linked_list::ListView::<K>::lemma_fresh(capacity as nat);
            assert(cache@.entries =~= Map::<K, V>::empty());
            assert(cache@.order =~= Seq::<K>::empty());
            cache.lemma_view_wf();
        }
        cache
    }

    /// Removes the least recently used entry and returns its value.
    fn evact(&mut self) -> (r: Option<V>)
        ensures
            final(self)@ == old(self)@.evict(),
            r == old(self)@.evicted(),
    {
        broadcast use group_hash_axioms;

        proof {
            self.lru_order@.lemma_remove_bottom();
            self@.lemma_evict();
        }
        let ghost list = self.lru_order@;
        let lru_key = self.lru_order.remove_bottom();
        let r = match lru_key {
            Some(lru_key) => {
                assert(lru_key == list.values[list.order[list.order.len() - 1]]->0);
                match self.map.remove(&lru_key) {
                    Some(evacted_entry) => Some(evacted_entry.value),
                    None => None,
                }
            },
            None => None,
        };
        proof {
            if list.order.len() > 0 {
                let last = old(self)@.order.last();
                assert(self@.entries =~= old(self)@.entries.remove(last));
                assert forall|p: int| 0 <= p < self.lru_order@.order.len() implies {
                    let key = self.lru_order@.values[#[trigger] self.lru_order@.order[p]]->0;
                    &&& self.map@.contains_key(key)
                    &&& self.map@[key].index as int == self.lru_order@.order[p]
                } by {
                    assert(self.lru_order@.order[p] == list.order[p]);
                }
                assert forall|key: K| #[trigger] self.map@.contains_key(key) implies {
                    &&& self.lru_order@.order.contains(self.map@[key].index as int)
                    &&& self.lru_order@.values[self.map@[key].index as int] == Some(key)
                } by {
                    let i = old(self).map@[key].index as int;
                    let p = choose|p: int| 0 <= p < list.order.len() && list.order[p] == i;
                    assert(self.lru_order@.order[p] == i);
                }
                assert(old(self).entries().contains_key(last));
            } else {
                assert(self@.entries =~= old(self)@.entries);
            }
        }
        r
    }

    /// The value stored for `key`, which becomes the most recently used.
    fn get(&mut self, key: &K) -> (r: Option<&V>)
        ensures
            final(self)@ == old(self)@.get(*key),
    {
        broadcast use group_hash_axioms;

        proof {
            self@.lemma_get(*key);
        }
        let index = match self.map.get(key) {
            Some(entry) => entry.index,
            None => {
                return None;
            },
        };
        let ghost list = self.lru_order@;
        proof {
            list.lemma_shift(index as int);
            let p = list.order.index_of(index as int);
            assert(old(self)@.order[p] == *key);
            assert(old(self)@.order.contains(*key));
        }
        self.lru_order.shift(index);
        proof {
            assert(self@.order =~= old(self)@.get(*key).order);
        }
        match self.map.get(key) {
            Some(entry) => Some(&entry.value),
            None => None,
        }
    }

    /// Stores `value` under `key` and makes the key the most recently
    /// used. Where the key is new and the cache is full, the least recently
    /// used entry leaves first. It always succeeds.
    fn put(&mut self, key: K, value: V) -> (r: Result<(), &'static str>)
        ensures
            r is Ok,
            final(self)@ == old(self)@.put(key, value),
    {
        broadcast use group_hash_axioms;

        proof {
            self@.lemma_put(key, value);
            self@.lemma_len();
        }
        let existing = match self.map.get(&key) {
            Some(entry) => Some(entry.index),
            None => None,
        };
        assert(self@.entries.dom() =~= self.map@.dom());
        match existing {
            Some(index) => {
                let ghost list = self.lru_order@;
                proof {
                    assert(self.map@.contains_key(key) && self.map@[key].index == index);
                    assert(list.order.contains(index as int));
                    list.lemma_shift(index as int);
                    let p = list.order.index_of(index as int);
                    assert(old(self)@.order[p] == key);
                    assert(old(self)@.order.contains(key));
                }
                self.lru_order.shift(index);
                self.map.insert(key, CacheValue { value, index });
                proof {
                    assert(self@.order =~= old(self)@.put(key, value).order);
                    assert(self@.entries =~= old(self)@.put(key, value).entries);
                }
                Ok(())
            },
            None => {
                if self.map.len() == self.capacity {
                    self.evact();
                }
                let ghost room = self@;
                let ghost list = self.lru_order@;
                let ghost map = self.map@;
                proof {
                    assert(!old(self).map@.contains_key(key));
                    assert(old(self).map@.len() == old(self)@.order.len());
                    assert(room == if old(self)@.order.len() >= old(self)@.capacity {
                        old(self)@.evict()
                    } else {
                        old(self)@
                    });
                    old(self)@.lemma_evict();
                    list.lemma_len();
                    list.lemma_shift_new(key);
                    assert(room.order.len() == list.order.len());
                    assert(list.next_index() is Some);
                    assert(room.entries.dom() =~= map.dom());
                    assert(!map.contains_key(key));
                }
                let copy = key.clone();
                assert(cloned(key, copy));
                match self.lru_order.shift_new(copy) {
                    Ok(index) => {
                        self.map.insert(key, CacheValue { value, index });
                        proof {
                            assert(self@.order =~= old(self)@.put(key, value).order);
                            assert(self@.entries =~= old(self)@.put(key, value).entries);
                            assert forall|p: int| 0 <= p < self.lru_order@.order.len() implies {
                                let k = self.lru_order@.values[#[trigger] self.lru_order@.order[p]]->0;
                                &&& self.map@.contains_key(k)
                                &&& self.map@[k].index as int == self.lru_order@.order[p]
                            } by {
                                if p > 0 {
                                    assert(self.lru_order@.order[p] == list.order[p - 1]);
                                }
                            }
                            assert forall|k: K| #[trigger] self.map@.contains_key(k) implies {
                                &&& self.lru_order@.order.contains(self.map@[k].index as int)
                                &&& self.lru_order@.values[self.map@[k].index as int] == Some(k)
                            } by {
                                if k == key {
                                    assert(self.lru_order@.order[0] == index);
                                } else {
                                    let i = map[k].index as int;
                                    let p = choose|p: int| 0 <= p < list.order.len() && list.order[p] == i;
                                    assert(self.lru_order@.order[p + 1] == i);
                                }
                            }
                        }
                        Ok(())
                    },
                    Err(err) => Err(err),
                }
            },
        }
    }
}

} // verus!
