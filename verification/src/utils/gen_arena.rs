//! A fixed-capacity arena: a vector of slots with a free list threaded
//! through the unoccupied ones. Values are addressed by slot index, and an
//! index stays valid until its value is removed.

use vstd::prelude::*;
use vstd::set_lib::*;

verus! {

/// One slot of a [`GenArena`].
pub enum GenArenaElem<T> {
    /// An unoccupied slot, linked to the next unoccupied one.
    Free { next: Option<usize> },
    /// A slot that holds a value.
    Occupied(T),
}

/// The abstract state of an arena: what each slot holds, and the free slots
/// in the order in which `push` will hand them out.
#[verifier::ext_equal]
pub struct ArenaView<T> {
    pub slots: Seq<Option<T>>,
    pub free: Seq<int>,
}

impl<T> ArenaView<T> {
    /// The number of slots.
    pub open spec fn capacity(self) -> nat {
        self.slots.len()
    }

    /// The indices that currently hold a value.
    pub open spec fn live(self) -> Set<int> {
        Set::new(|i: int| 0 <= i < self.slots.len() && self.slots[i] is Some)
    }

    /// The number of occupied slots.
    pub open spec fn len(self) -> nat {
        self.live().len()
    }

    /// The free list holds exactly the unoccupied slots, each once.
    pub open spec fn wf(self) -> bool {
        &&& self.slots.len() > 0
        &&& self.free.no_duplicates()
        &&& forall|k: int| 0 <= k < self.free.len() ==> 0 <= #[trigger] self.free[k] < self.slots.len()
        &&& forall|i: int|
            0 <= i < self.slots.len() ==> (#[trigger] self.slots[i] is None <==> self.free.contains(i))
    }

    /// An arena of `capacity` unoccupied slots, to be handed out in rising order.
    pub open spec fn fresh(capacity: nat) -> Self {
        ArenaView { slots: Seq::new(capacity, |i: int| None), free: Seq::new(capacity, |i: int| i) }
    }

    /// The value in slot `index`, if the slot exists and is occupied.
    pub open spec fn at(self, index: int) -> Option<T> {
        if 0 <= index < self.slots.len() {
            self.slots[index]
        } else {
            None
        }
    }

    /// The slot that the next `push` fills, if any is free.
    pub open spec fn next_index(self) -> Option<int> {
        if self.free.len() > 0 {
            Some(self.free[0])
        } else {
            None
        }
    }

    /// The arena after `push(elem)`: unchanged when full.
    pub open spec fn push(self, elem: T) -> Self {
        if self.free.len() > 0 {
            ArenaView { slots: self.slots.update(self.free[0], Some(elem)), free: self.free.drop_first() }
        } else {
            self
        }
    }

    /// The arena after `remove(index)`: unchanged unless the slot is occupied.
    pub open spec fn remove(self, index: int) -> Self {
        if self.at(index) is Some {
            ArenaView { slots: self.slots.update(index, None), free: seq![index] + self.free }
        } else {
            self
        }
    }

    /// The arena with the value of an occupied slot replaced.
    pub open spec fn set(self, index: int, elem: T) -> Self {
        ArenaView { slots: self.slots.update(index, Some(elem)), free: self.free }
    }

    /// The occupied values among the first `n` slots, in slot order.
    pub open spec fn values_upto(self, n: int) -> Seq<T>
        decreases n,
    {
        if n <= 0 {
            Seq::empty()
        } else if self.at(n - 1) is Some {
            self.values_upto(n - 1).push(self.at(n - 1)->0)
        } else {
            self.values_upto(n - 1)
        }
    }

    /// All occupied values, in slot order.
    pub open spec fn values(self) -> Seq<T> {
        self.values_upto(self.slots.len() as int)
    }
}

impl<T> ArenaView<T> {
    /// Occupied and free slots together are all the slots: `len` counts the
    /// live indices, and the arena is full exactly when `len` is the capacity.
    pub proof fn lemma_len(self)
        requires
            self.wf(),
        ensures
            self.live().finite(),
            self.len() + self.free.len() == self.capacity(),
            self.free.len() == 0 <==> self.len() == self.capacity(),
    {
        let all = set_int_range(0, self.slots.len() as int);
        let unoccupied = self.free.to_set();
        lemma_int_range(0, self.slots.len() as int);
        self.free.unique_seq_to_set();
        assert(self.live().disjoint(unoccupied));
        assert(self.live() + unoccupied =~= all) by {
            assert forall|i: int| all.contains(i) implies (self.live() + unoccupied).contains(i) by {
                if self.slots[i] is None {
                    assert(self.free.contains(i));
                }
            }
        }
        lemma_len_subset(self.live(), all);
        lemma_set_disjoint_lens(self.live(), unoccupied);
    }

    /// A fresh arena is well formed and empty.
    pub proof fn lemma_fresh(capacity: nat)
        requires
            capacity > 0,
        ensures
            Self::fresh(capacity).wf(),
            Self::fresh(capacity).len() == 0,
            Self::fresh(capacity).capacity() == capacity,
    {
        let a = Self::fresh(capacity);
        assert forall|i: int| 0 <= i < a.slots.len() implies a.free.contains(i) by {
            assert(a.free[i] == i);
        }
        a.lemma_len();
    }

    /// `push` keeps the arena well formed; unless the arena is full, the
    /// slot it fills was unoccupied, and one more slot is occupied.
    pub proof fn lemma_push(self, elem: T)
        requires
            self.wf(),
        ensures
            self.push(elem).wf(),
            self.push(elem).capacity() == self.capacity(),
            self.next_index() matches Some(i) ==> {
                &&& self.at(i) is None
                &&& self.push(elem).at(i) == Some(elem)
                &&& self.push(elem).live() == self.live().insert(i)
                &&& self.push(elem).len() == self.len() + 1
            },
            self.next_index() is None ==> self.push(elem) == self,
    {
        if self.free.len() > 0 {
            let i = self.free[0];
            let after = self.push(elem);
            assert(self.free.contains(i));
            assert forall|j: int| 0 <= j < after.slots.len() implies (#[trigger] after.slots[j] is None
                <==> after.free.contains(j)) by {
                if j == i {
                    if after.free.contains(j) {
                        let k = choose|k: int| 0 <= k < after.free.len() && after.free[k] == j;
                        assert(self.free[k + 1] == j);
                    }
                } else if self.free.contains(j) {
                    let k = choose|k: int| 0 <= k < self.free.len() && self.free[k] == j;
                    assert(after.free[k - 1] == j);
                } else if after.free.contains(j) {
                    let k = choose|k: int| 0 <= k < after.free.len() && after.free[k] == j;
                    assert(self.free[k + 1] == j);
                }
            }
            assert(after.live() =~= self.live().insert(i));
            self.lemma_len();
        }
    }

    /// `remove` keeps the arena well formed; where the slot was occupied it
    /// is unoccupied afterwards and is the next to be handed out.
    pub proof fn lemma_remove(self, index: int)
        requires
            self.wf(),
        ensures
            self.remove(index).wf(),
            self.remove(index).capacity() == self.capacity(),
            self.remove(index).at(index) is None,
            self.at(index) is Some ==> {
                &&& self.remove(index).next_index() == Some(index)
                &&& self.remove(index).live() == self.live().remove(index)
                &&& self.remove(index).len() == self.len() - 1
            },
            self.at(index) is None ==> self.remove(index) == self,
    {
        if self.at(index) is Some {
            let after = self.remove(index);
            assert(after.free[0] == index);
            assert forall|j: int| 0 <= j < after.slots.len() implies (#[trigger] after.slots[j] is None
                <==> after.free.contains(j)) by {
                if j != index {
                    if self.free.contains(j) {
                        let k = choose|k: int| 0 <= k < self.free.len() && self.free[k] == j;
                        assert(after.free[k + 1] == j);
                    } else if after.free.contains(j) {
                        let k = choose|k: int| 0 <= k < after.free.len() && after.free[k] == j;
                        assert(self.free[k - 1] == j);
                    }
                }
            }
            assert(after.live() =~= self.live().remove(index));
            self.lemma_len();
        }
    }

    /// A slot that was just emptied is the one the next `push` fills.
    pub proof fn lemma_remove_then_push(self, index: int, elem: T)
        requires
            self.wf(),
            self.at(index) is Some,
        ensures
            self.remove(index).at(index) is None,
            self.remove(index).next_index() == Some(index),
            self.remove(index).push(elem).at(index) == Some(elem),
            self.remove(index).push(elem).free == self.free,
    {
        self.lemma_remove(index);
        self.remove(index).lemma_push(elem);
        assert(self.remove(index).push(elem).free =~= self.free);
    }

    /// The occupied values among the first `n` slots are as many as the
    /// live indices below `n`.
    pub proof fn lemma_values_upto(self, n: int)
        requires
            0 <= n <= self.slots.len(),
        ensures
            self.live().filter(|i: int| i < n).finite(),
            self.values_upto(n).len() == self.live().filter(|i: int| i < n).len(),
        decreases n,
    {
        let below = self.live().filter(|i: int| i < n);
        if n == 0 {
            assert(below =~= Set::empty());
        } else {
            self.lemma_values_upto(n - 1);
            let before = self.live().filter(|i: int| i < n - 1);
            if self.at(n - 1) is Some {
                assert(below =~= before.insert(n - 1));
            } else {
                assert(below =~= before);
            }
        }
    }

    /// `values` lists as many values as there are live indices.
    pub proof fn lemma_values_len(self)
        ensures
            self.values().len() == self.len(),
    {
        self.lemma_values_upto(self.slots.len() as int);
        assert(self.live().filter(|i: int| i < self.slots.len() as int) =~= self.live());
    }
}

/// A fixed-capacity arena of `T`.
pub struct GenArena<T> {
    elements: Vec<GenArenaElem<T>>,
    capacity: usize,
    free_head: Option<usize>,
    len: usize,
    free: Ghost<Seq<int>>,
}

impl<T> View for GenArena<T> {
    type V = ArenaView<T>;

    closed spec fn view(&self) -> ArenaView<T> {
        ArenaView {
            slots: Seq::new(
                self.elements@.len(),
                |i: int|
                    match self.elements@[i] {
                        GenArenaElem::Occupied(elem) => Some(elem),
                        GenArenaElem::Free { .. } => None,
                    },
            ),
            free: self.free@,
        }
    }
}

impl<T> GenArena<T> {
    /// The stored free list is the one the view names.
    pub closed spec fn inv(&self) -> bool {
        &&& self.elements@.len() == self.capacity
        &&& self.len + self.free@.len() == self.capacity
        &&& self.free_head == (if self.free@.len() > 0 {
            Some(self.free@[0] as usize)
        } else {
            None
        })
        &&& forall|k: int|
            0 <= k < self.free@.len() ==> #[trigger] self.elements@[self.free@[k]] == (GenArenaElem::<T>::Free {
                next: if k + 1 < self.free@.len() {
                    Some(self.free@[k + 1] as usize)
                } else {
                    None
                },
            })
    }

    /// Well-formedness: what every arena built by this module satisfies.
    pub open spec fn wf(&self) -> bool {
        &&& self@.wf()
        &&& self.inv()
    }

    /// The slots of an arena can be counted in a `usize`.
    pub proof fn lemma_capacity_bound(&self)
        requires
            self.wf(),
        ensures
            self@.capacity() <= usize::MAX,
    {
    }

    /// An arena of ten slots.
    pub fn new() -> (arena: Self)
        ensures
            arena.wf(),
            arena@ == ArenaView::<T>::fresh(10),
    {
        GenArena::with_capacity(10)
    }

    /// An arena of `capacity` slots; of ten where `capacity` is zero.
    pub fn with_capacity(capacity: usize) -> (arena: Self)
        ensures
            arena.wf(),
            arena@ == ArenaView::<T>::fresh(
                if capacity == 0 {
                    10
                } else {
                    capacity as nat
                },
            ),
    {
        let capacity: usize = if capacity == 0 {
            10
        } else {
            capacity
        };
        let mut elements: Vec<GenArenaElem<T>> = Vec::with_capacity(capacity);
        let mut i: usize = 0;
        while i < capacity
            invariant
                i <= capacity,
                elements@.len() == i,
                forall|k: int|
                    0 <= k < i ==> #[trigger] elements@[k] == (GenArenaElem::<T>::Free {
                        next: if k + 1 < capacity {
                            Some((k + 1) as usize)
                        } else {
                            None
                        },
                    }),
            decreases capacity - i,
        {
            let next = if i + 1 < capacity {
                Some(i + 1)
            } else {
                None
            };
            elements.push(GenArenaElem::Free { next });
            i += 1;
        }
        let arena = GenArena {
            elements,
            capacity,
            free_head: Some(0),
            len: 0,
            free: Ghost(Seq::new(capacity as nat, |i: int| i)),
        };
        proof {
            ArenaView::<T>::lemma_fresh(capacity as nat);
            assert(arena@.slots =~= ArenaView::<T>::fresh(capacity as nat).slots);
        }
        arena
    }

    /// The number of occupied slots.
    pub fn len(&self) -> (n: usize)
        requires
            self.wf(),
        ensures
            n == self@.len(),
    {
        proof {
            self@.lemma_len();
        }
        self.len
    }

    /// Whether every slot is occupied.
    pub fn is_full(&self) -> (full: bool)
        requires
            self.wf(),
        ensures
            full == (self@.len() == self@.capacity()),
            full == (self@.next_index() is None),
    {
        proof {
            self@.lemma_len();
        }
        self.free_head.is_none()
    }

    /// The value in slot `index`, if there is one.
    pub fn at(&self, index: usize) -> (elem: Option<&T>)
        requires
            self.wf(),
        ensures
            elem == match self@.at(index as int) {
                Some(v) => Some(&v),
                None => None,
            },
    {
        if index < self.capacity {
            match &self.elements[index] {
                GenArenaElem::Occupied(element) => Some(element),
                _ => None,
            }
        } else {
            None
        }
    }

    /// The value in slot `index`, for changing it in place.
    pub fn at_mut(&mut self, index: usize) -> (elem: Option<&mut T>)
        requires
            old(self).wf(),
        ensures
            elem is Some <==> old(self)@.at(index as int) is Some,
            elem matches Some(v) ==> old(self)@.at(index as int) == Some(*v),
            elem matches Some(v) ==> final(self)@ =~= old(self)@.set(index as int, *final(v)),
            elem matches Some(v) ==> final(self).wf(),
            elem is None ==> *final(self) == *old(self),
    {
        if index < self.capacity && self.at(index).is_some() {
            proof {
                let before = *self;
                assert forall|after: Self, v: T|
                    after.elements@ == before.elements@.update(
                        index as int,
                        GenArenaElem::Occupied(v),
                    ) && after.capacity == before.capacity && after.free_head == before.free_head
                        && after.len == before.len && after.free == before.free implies #[trigger] after.wf()
                    && after@ =~= #[trigger] before@.set(index as int, v) by {
                    assert(before.elements@[index as int] is Occupied);
                    assert forall|k: int| 0 <= k < after.free@.len() implies before.free@[k]
                        != index by {}
                    assert(after@.slots =~= before@.set(index as int, v).slots);
                }
            }
            match &mut self.elements[index] {
                GenArenaElem::Occupied(element) => Some(element),
                _ => None,
            }
        } else {
            None
        }
    }
    /// Puts `elem` into the slot at the head of the free list and returns
    /// the slot's index; fails, changing nothing, when no slot is free.
    pub fn push(&mut self, elem: T) -> (r: Result<usize, &'static str>)
        requires
            old(self).wf(),
        ensures
            final(self).wf(),
            final(self)@ == old(self)@.push(elem),
            match r {
                Ok(index) => old(self)@.next_index() == Some(index as int),
                Err(msg) => old(self)@.next_index() is None && msg@ == "Arena is full!"@,
            },
    {
        proof {
            self@.lemma_push(elem);
        }
        match self.free_head {
            Some(free_head) => {
                assert(self.elements@[self.free@[0]] is Free);
                let next = match &self.elements[free_head] {
                    GenArenaElem::Free { next } => *next,
                    _ => None,
                };
                self.elements[free_head] = GenArenaElem::Occupied(elem);
                self.free_head = next;
                self.len += 1;
                self.free = Ghost(self.free@.drop_first());
                proof {
                    assert(self@.slots =~= old(self)@.push(elem).slots);
                    assert forall|k: int| 0 <= k < self.free@.len() implies #[trigger] self.elements@[self.free@[k]]
                        == (GenArenaElem::<T>::Free {
                        next: if k + 1 < self.free@.len() {
                            Some(self.free@[k + 1] as usize)
                        } else {
                            None
                        },
                    }) by {
                        assert(self.free@[k] == old(self).free@[k + 1]);
                    }
                }
                Ok(free_head)
            },
            None => Err("Arena is full!"),
        }
    }

    /// Takes the value out of slot `index` and puts the slot at the head of
    /// the free list; changes nothing where the slot holds no value.
    pub fn remove(&mut self, index: usize) -> (r: Option<T>)
        requires
            old(self).wf(),
        ensures
            final(self).wf(),
            final(self)@ == old(self)@.remove(index as int),
            r == old(self)@.at(index as int),
    {
        proof {
            self@.lemma_remove(index as int);
            self@.lemma_len();
        }
        if index < self.capacity && self.at(index).is_some() {
            let mut entry = GenArenaElem::Free { next: self.free_head };
            core::mem::swap(&mut self.elements[index], &mut entry);
            self.free_head = Some(index);
            self.len -= 1;
            self.free = Ghost(seq![index as int] + self.free@);
            proof {
                assert(self@.slots =~= old(self)@.remove(index as int).slots);
                assert forall|k: int| 0 <= k < self.free@.len() implies #[trigger] self.elements@[self.free@[k]]
                    == (GenArenaElem::<T>::Free {
                    next: if k + 1 < self.free@.len() {
                        Some(self.free@[k + 1] as usize)
                    } else {
                        None
                    },
                }) by {
                    if k > 0 {
                        assert(self.free@[k] == old(self).free@[k - 1]);
                    }
                }
            }
            match entry {
                GenArenaElem::Occupied(elem) => Some(elem),
                _ => None,
            }
        } else {
            None
        }
    }

    /// The occupied values, each once, in slot order.
    pub fn iter(&self) -> (items: Vec<&T>)
        requires
            self.wf(),
        ensures
            items@.len() == self@.len(),
            items@.map_values(|elem: &T| *elem) == self@.values(),
    {
        let mut items: Vec<&T> = Vec::new();
        let mut i: usize = 0;
        while i < self.capacity
            invariant
                self.wf(),
                i <= self.capacity,
                self.capacity == self@.slots.len(),
                items@.map_values(|elem: &T| *elem) == self@.values_upto(i as int),
            decreases self.capacity - i,
        {
            let ghost before = items@;
            if let Some(elem) = self.at(i) {
                items.push(elem);
                assert(items@.map_values(|elem: &T| *elem) =~= before.map_values(|elem: &T| *elem).push(
                    *elem,
                ));
            }
            i += 1;
        }
        proof {
            self@.lemma_values_len();
        }
        items
    }
}

} // verus!
