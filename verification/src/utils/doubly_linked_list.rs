//! A doubly linked list whose nodes live in a [`GenArena`]: the links are
//! slot indices, so a node can be unlinked in constant time from its index
//! alone, and an index stays valid while its node is in the list.

use super::gen_arena::{ArenaView, GenArena};
use vstd::prelude::*;

verus! {

/// The abstract state of a list: the value in each slot of its arena, the
/// slots of its nodes from head to tail, and the arena's free slots in the
/// order in which they will be handed out.
#[verifier::ext_equal]
pub struct ListView<T> {
    pub values: Seq<Option<T>>,
    pub order: Seq<int>,
    pub free: Seq<int>,
}

impl<T> ListView<T> {
    /// The arena that holds the nodes.
    pub open spec fn arena(self) -> ArenaView<T> {
        ArenaView { slots: self.values, free: self.free }
    }

    /// The number of nodes the list can hold.
    pub open spec fn capacity(self) -> nat {
        self.values.len()
    }

    /// The nodes of the list are exactly the occupied slots, each once.
    pub open spec fn wf(self) -> bool {
        &&& self.arena().wf()
        &&& self.order.no_duplicates()
        &&& forall|k: int| 0 <= k < self.order.len() ==> 0 <= #[trigger] self.order[k] < self.values.len()
        &&& forall|i: int|
            0 <= i < self.values.len() ==> (#[trigger] self.values[i] is Some <==> self.order.contains(i))
    }

    /// An empty list over `capacity` slots.
    pub open spec fn fresh(capacity: nat) -> Self {
        ListView {
            values: ArenaView::<T>::fresh(capacity).slots,
            order: Seq::empty(),
            free: ArenaView::<T>::fresh(capacity).free,
        }
    }

    /// The slot of the head node.
    pub open spec fn head(self) -> Option<int> {
        if self.order.len() > 0 {
            Some(self.order.first())
        } else {
            None
        }
    }

    /// The slot of the tail node.
    pub open spec fn tail(self) -> Option<int> {
        if self.order.len() > 0 {
            Some(self.order.last())
        } else {
            None
        }
    }

    /// The value in slot `index`, if a node of the list lives there.
    pub open spec fn at(self, index: int) -> Option<T> {
        self.arena().at(index)
    }

    /// The value of the head node.
    pub open spec fn top(self) -> Option<T> {
        match self.head() {
            Some(i) => self.at(i),
            None => None,
        }
    }

    /// The value of the tail node.
    pub open spec fn bottom(self) -> Option<T> {
        match self.tail() {
            Some(i) => self.at(i),
            None => None,
        }
    }

    /// The values of the list from head to tail.
    pub open spec fn items(self) -> Seq<T> {
        Seq::new(self.order.len(), |k: int| self.values[self.order[k]]->0)
    }

    /// The slot that the next new node will take, if any is free.
    pub open spec fn next_index(self) -> Option<int> {
        self.arena().next_index()
    }

    /// The list after `push(elem)`: a new tail, unless the arena is full.
    pub open spec fn push(self, elem: T) -> Self {
        match self.next_index() {
            Some(i) => ListView {
                values: self.values.update(i, Some(elem)),
                order: self.order.push(i),
                free: self.free.drop_first(),
            },
            None => self,
        }
    }

    /// The list after `shift_new(elem)`: a new head, unless the arena is full.
    pub open spec fn shift_new(self, elem: T) -> Self {
        match self.next_index() {
            Some(i) => ListView {
                values: self.values.update(i, Some(elem)),
                order: seq![i] + self.order,
                free: self.free.drop_first(),
            },
            None => self,
        }
    }

    /// The list after `shift(index)`: the node in slot `index` moved to the
    /// head; unchanged where it is the head already or no node lives there.
    pub open spec fn shift(self, index: int) -> Self {
        if self.order.contains(index) && self.order.first() != index {
            ListView {
                values: self.values,
                order: seq![index] + self.order.remove(self.order.index_of(index)),
                free: self.free,
            }
        } else {
            self
        }
    }

    /// The list after `remove_bottom()`: without its tail node, whose slot
    /// is the next to be handed out.
    pub open spec fn remove_bottom(self) -> Self {
        match self.tail() {
            Some(i) => ListView {
                values: self.values.update(i, None),
                order: self.order.drop_last(),
                free: seq![i] + self.free,
            },
            None => self,
        }
    }
}

impl<T> ListView<T> {
    /// A well-formed list holds as many nodes as its arena has occupied slots.
    pub proof fn lemma_len(self)
        requires
            self.wf(),
        ensures
            self.order.len() == self.arena().len(),
            self.order.len() + self.free.len() == self.capacity(),
            self.next_index() is None <==> self.order.len() == self.capacity(),
    {
        self.arena().lemma_len();
        self.order.unique_seq_to_set();
        assert(self.order.to_set() =~= self.arena().live());
    }

    /// An empty list is well formed.
    pub proof fn lemma_fresh(capacity: nat)
        requires
            capacity > 0,
        ensures
            Self::fresh(capacity).wf(),
            Self::fresh(capacity).capacity() == capacity,
            Self::fresh(capacity).free.len() == capacity,
            Self::fresh(capacity).items() == Seq::<T>::empty(),
    {
        ArenaView::<T>::lemma_fresh(capacity);
        assert(Self::fresh(capacity).arena() == ArenaView::<T>::fresh(capacity));
        assert(Self::fresh(capacity).items() =~= Seq::<T>::empty());
    }

    /// `push` keeps the list well formed and, unless the arena is full,
    /// appends `elem` behind the old tail.
    pub proof fn lemma_push(self, elem: T)
        requires
            self.wf(),
        ensures
            self.push(elem).wf(),
            self.push(elem).capacity() == self.capacity(),
            self.next_index() matches Some(i) ==> {
                &&& !self.order.contains(i)
                &&& self.push(elem).tail() == Some(i)
                &&& self.push(elem).at(i) == Some(elem)
                &&& self.push(elem).items() == self.items().push(elem)
            },
            self.next_index() is None ==> self.push(elem) == self,
    {
        self.arena().lemma_push(elem);
        if let Some(i) = self.next_index() {
            let after = self.push(elem);
            assert(after.arena() == self.arena().push(elem));
            assert forall|j: int| 0 <= j < after.values.len() implies (#[trigger] after.values[j] is Some
                <==> after.order.contains(j)) by {
                if j == i {
                    assert(after.order[self.order.len() as int] == i);
                } else if self.order.contains(j) {
                    let k = choose|k: int| 0 <= k < self.order.len() && self.order[k] == j;
                    assert(after.order[k] == j);
                }
            }
            assert(after.items() =~= self.items().push(elem));
        }
    }

    /// `shift_new` keeps the list well formed and, unless the arena is
    /// full, puts `elem` in front of the old head.
    pub proof fn lemma_shift_new(self, elem: T)
        requires
            self.wf(),
        ensures
            self.shift_new(elem).wf(),
            self.shift_new(elem).capacity() == self.capacity(),
            self.next_index() matches Some(i) ==> {
                &&& !self.order.contains(i)
                &&& self.shift_new(elem).head() == Some(i)
                &&& self.shift_new(elem).top() == Some(elem)
                &&& self.shift_new(elem).items() == seq![elem] + self.items()
            },
            self.next_index() is None ==> self.shift_new(elem) == self,
    {
        self.arena().lemma_push(elem);
        if let Some(i) = self.next_index() {
            let after = self.shift_new(elem);
            assert(after.arena() == self.arena().push(elem));
            assert forall|j: int| 0 <= j < after.values.len() implies (#[trigger] after.values[j] is Some
                <==> after.order.contains(j)) by {
                if j == i {
                    assert(after.order[0] == i);
                } else if self.order.contains(j) {
                    let k = choose|k: int| 0 <= k < self.order.len() && self.order[k] == j;
                    assert(after.order[k + 1] == j);
                }
            }
            assert(after.items() =~= seq![elem] + self.items());
        }
    }

    /// `shift` keeps the list well formed and holds the same nodes; the
    /// node of a slot other than the head's becomes the head, and the
    /// others keep their order.
    pub proof fn lemma_shift(self, index: int)
        requires
            self.wf(),
        ensures
            self.shift(index).wf(),
            self.shift(index).capacity() == self.capacity(),
            self.shift(index).values == self.values,
            self.shift(index).free == self.free,
            self.shift(index).order.len() == self.order.len(),
            self.order.contains(index) ==> {
                &&& self.shift(index).head() == Some(index)
                &&& self.shift(index).top() == self.at(index)
                &&& self.shift(index).items() == seq![self.values[index]->0] + self.items().remove(
                    self.order.index_of(index),
                )
            },
            !self.order.contains(index) || self.head() == Some(index) ==> self.shift(index) == self,
    {
        if self.order.contains(index) {
            let p = self.order.index_of(index);
            let after = self.shift(index);
            if self.order.first() != index {
                let rest = self.order.remove(p);
                assert forall|k: int| 0 <= k < rest.len() implies #[trigger] rest[k] == self.order[if k < p {
                    k
                } else {
                    k + 1
                }] by {}
                assert(after.order.no_duplicates());
                assert forall|j: int| 0 <= j < after.values.len() implies (#[trigger] after.values[j] is Some
                    <==> after.order.contains(j)) by {
                    if self.order.contains(j) {
                        let k = choose|k: int| 0 <= k < self.order.len() && self.order[k] == j;
                        if k == p {
                            assert(after.order[0] == j);
                        } else if k < p {
                            assert(after.order[k + 1] == j);
                        } else {
                            assert(after.order[k] == j);
                        }
                    }
                }
                assert(after.items() =~= seq![self.values[index]->0] + self.items().remove(p));
            } else {
                assert(p == 0);
                assert(self.items() =~= seq![self.values[index]->0] + self.items().remove(p));
            }
        }
    }

    /// `remove_bottom` keeps the list well formed and drops the tail node,
    /// whose slot is the next to be handed out.
    pub proof fn lemma_remove_bottom(self)
        requires
            self.wf(),
        ensures
            self.remove_bottom().wf(),
            self.remove_bottom().capacity() == self.capacity(),
            self.tail() matches Some(i) ==> {
                &&& self.bottom() is Some
                &&& self.remove_bottom().at(i) is None
                &&& self.remove_bottom().next_index() == Some(i)
                &&& self.remove_bottom().items() == self.items().drop_last()
            },
            self.tail() is None ==> self.remove_bottom() == self,
    {
        if let Some(i) = self.tail() {
            let after = self.remove_bottom();
            assert(self.order.contains(i));
            self.arena().lemma_remove(i);
            assert(after.arena() == self.arena().remove(i));
            assert forall|j: int| 0 <= j < after.values.len() implies (#[trigger] after.values[j] is Some
                <==> after.order.contains(j)) by {
                if j != i && self.order.contains(j) {
                    let k = choose|k: int| 0 <= k < self.order.len() && self.order[k] == j;
                    assert(after.order[k] == j);
                }
            }
            assert(after.items() =~= self.items().drop_last());
        }
    }

    /// Shifting the head changes nothing: head and tail stay where they are.
    pub proof fn lemma_shift_head(self, index: int)
        requires
            self.wf(),
            self.head() == Some(index),
        ensures
            self.shift(index) == self,
            self.shift(index).head() == self.head(),
            self.shift(index).tail() == self.tail(),
    {
    }

    /// Shifting a node that is neither head nor tail makes it the head and
    /// leaves the tail alone.
    pub proof fn lemma_shift_middle(self, index: int)
        requires
            self.wf(),
            self.order.contains(index),
            self.head() != Some(index),
            self.tail() != Some(index),
        ensures
            self.shift(index).head() == Some(index),
            self.shift(index).top() == self.at(index),
            self.shift(index).tail() == self.tail(),
            self.shift(index).bottom() == self.bottom(),
    {
        self.lemma_shift(index);
    }

    /// On an empty list with room for two, `shift_new(a)`, `shift_new(b)`,
    /// `remove_bottom()` hands back `a` and leaves `b` at the head.
    pub proof fn lemma_shift_new_twice_remove_bottom(self, a: T, b: T)
        requires
            self.wf(),
            self.order.len() == 0,
            self.free.len() >= 2,
        ensures
            self.shift_new(a).shift_new(b).bottom() == Some(a),
            self.shift_new(a).shift_new(b).remove_bottom().top() == Some(b),
            self.shift_new(a).shift_new(b).remove_bottom().items() == seq![b],
    {
        let one = self.shift_new(a);
        self.lemma_shift_new(a);
        let two = one.shift_new(b);
        one.lemma_shift_new(b);
        two.lemma_remove_bottom();
        assert(two.items() =~= seq![b, a]);
        assert(two.remove_bottom().items() =~= seq![b]);
        assert(two.items()[1] == a);
        assert(two.remove_bottom().items()[0] == b);
    }
}

/// A node of the list: its value and the slots of its neighbours.
struct Node<T> {
    value: T,
    prev: Option<usize>,
    next: Option<usize>,
}

/// The link that stands for position `k` of `order`: none outside of it.
spec fn link(order: Seq<int>, k: int) -> Option<usize> {
    if 0 <= k < order.len() {
        Some(order[k] as usize)
    } else {
        None
    }
}

/// The node at position `k` of `order` is linked to its neighbours in `order`.
spec fn linked<T>(slots: Seq<Option<Node<T>>>, order: Seq<int>, k: int) -> bool {
    &&& 0 <= order[k] < slots.len()
    &&& slots[order[k]] matches Some(node)
    &&& node.prev == link(order, k - 1)
    &&& node.next == link(order, k + 1)
}

/// `slots` with the backward link of the node in slot `i` set to `prev`.
spec fn with_prev<T>(slots: Seq<Option<Node<T>>>, i: int, prev: Option<usize>) -> Seq<Option<Node<T>>> {
    slots.update(i, Some(Node { value: slots[i]->0.value, prev, next: slots[i]->0.next }))
}

/// `slots` with the forward link of the node in slot `i` set to `next`.
spec fn with_next<T>(slots: Seq<Option<Node<T>>>, i: int, next: Option<usize>) -> Seq<Option<Node<T>>> {
    slots.update(i, Some(Node { value: slots[i]->0.value, prev: slots[i]->0.prev, next }))
}

/// The links after the node at position `p` of `order` was unlinked and
/// made the head.
spec fn relinked<T>(slots: Seq<Option<Node<T>>>, order: Seq<int>, p: int) -> Seq<Option<Node<T>>> {
    let unlinked_before = with_next(slots, order[p - 1], link(order, p + 1));
    let unlinked_behind = if p + 1 < order.len() {
        with_prev(unlinked_before, order[p + 1], link(order, p - 1))
    } else {
        unlinked_before
    };
    let behind_new_head = with_prev(unlinked_behind, order[0], link(order, p));
    with_next(with_prev(behind_new_head, order[p], None), order[p], link(order, 0))
}

/// Relinking spells out the order in which the node at `p` comes first.
proof fn lemma_relinked<T>(slots: Seq<Option<Node<T>>>, order: Seq<int>, p: int)
    requires
        order.no_duplicates(),
        0 < p < order.len(),
        slots.len() <= usize::MAX,
        forall|k: int| 0 <= k < order.len() ==> #[trigger] linked(slots, order, k),
    ensures
        relinked(slots, order, p).len() == slots.len(),
        forall|i: int|
            0 <= i < slots.len() ==> (#[trigger] relinked(slots, order, p)[i] is Some <==> slots[i] is Some),
        forall|i: int|
            0 <= i < slots.len() && slots[i] is Some ==> (#[trigger] relinked(slots, order, p)[i])->0.value
                == slots[i]->0.value,
        forall|k: int|
            0 <= k < order.len() ==> #[trigger] linked(
                relinked(slots, order, p),
                seq![order[p]] + order.remove(p),
                k,
            ),
{
    let moved = seq![order[p]] + order.remove(p);
    let step_one = with_next(slots, order[p - 1], link(order, p + 1));
    let step_two = if p + 1 < order.len() {
        with_prev(step_one, order[p + 1], link(order, p - 1))
    } else {
        step_one
    };
    let step_three = with_prev(step_two, order[0], link(order, p));
    let done = with_next(with_prev(step_three, order[p], None), order[p], link(order, 0));
    assert(done == relinked(slots, order, p));
    assert forall|j: int| 0 <= j < order.len() implies 0 <= #[trigger] order[j] < slots.len()
        && slots[order[j]] is Some by {
        assert(linked(slots, order, j));
    }
    assert forall|k: int| 0 <= k < order.len() implies #[trigger] linked(done, moved, k) by {
        // position `j` of the old order is where the node at `k` stood
        let j = if k == 0 {
            p
        } else if k <= p {
            k - 1
        } else {
            k
        };
        assert(moved[k] == order[j]);
        assert(linked(slots, order, j));
        let was = slots[order[j]]->0;
        let node_one = step_one[order[j]]->0;
        let node_two = step_two[order[j]]->0;
        let node_three = step_three[order[j]]->0;
        let node_done = done[order[j]]->0;
        assert(node_one.prev == was.prev);
        assert(node_one.next == if j == p - 1 {
            link(order, p + 1)
        } else {
            was.next
        });
        assert(node_two.next == node_one.next);
        assert(node_two.prev == if j == p + 1 {
            link(order, p - 1)
        } else {
            node_one.prev
        });
        assert(node_three.next == node_two.next);
        assert(node_three.prev == if j == 0 {
            link(order, p)
        } else {
            node_two.prev
        });
        assert(node_done.prev == if j == p {
            None
        } else {
            node_three.prev
        });
        assert(node_done.next == if j == p {
            link(order, 0)
        } else {
            node_three.next
        });
        if k > 0 {
            assert(moved[k - 1] == order[if k - 1 == 0 {
                p
            } else if k - 1 <= p {
                k - 2
            } else {
                k - 1
            }]);
        }
        if k + 1 < order.len() {
            assert(moved[k + 1] == order[if k + 1 <= p {
                k
            } else {
                k + 1
            }]);
        }
    }
}

/// A doubly linked list of `T` with a fixed capacity.
pub struct DoublyLinkedList<T> {
    arena: GenArena<Node<T>>,
    head: Option<usize>,
    tail: Option<usize>,
    order: Ghost<Seq<int>>,
}

impl<T> View for DoublyLinkedList<T> {
    type V = ListView<T>;

    closed spec fn view(&self) -> ListView<T> {
        ListView {
            values: Seq::new(
                self.arena@.slots.len(),
                |i: int|
                    match self.arena@.slots[i] {
                        Some(node) => Some(node.value),
                        None => None,
                    },
            ),
            order: self.order@,
            free: self.arena@.free,
        }
    }
}

impl<T> DoublyLinkedList<T> {
    /// The stored links spell out the order that the view names.
    pub closed spec fn inv(&self) -> bool {
        &&& self.arena.wf()
        &&& self.head == link(self.order@, 0)
        &&& self.tail == link(self.order@, self.order@.len() - 1)
        &&& forall|k: int| 0 <= k < self.order@.len() ==> #[trigger] linked(self.arena@.slots, self.order@, k)
    }

    /// Well-formedness: what every list built by this module satisfies.
    pub open spec fn wf(&self) -> bool {
        &&& self@.wf()
        &&& self.inv()
    }

    /// An empty list of capacity ten.
    pub fn new() -> (list: Self)
        ensures
            list.wf(),
            list@ == ListView::<T>::fresh(10),
    {
        DoublyLinkedList::with_capacity(10)
    }

    /// An empty list of the given capacity; of ten where `capacity` is zero.
    pub fn with_capacity(capacity: usize) -> (list: Self)
        ensures
            list.wf(),
            list@ == ListView::<T>::fresh(
                if capacity == 0 {
                    10
                } else {
                    capacity as nat
                },
            ),
    {
        let list = DoublyLinkedList {
            arena: GenArena::with_capacity(capacity),
            head: None,
            tail: None,
            order: Ghost(Seq::empty()),
        };
        proof {
            let cap: nat = if capacity == 0 {
                10
            } else {
                capacity as nat
            };
            assert(list@.values =~= ListView::<T>::fresh(cap).values);
            assert(list@.arena() == ArenaView::<T>::fresh(cap));
            ArenaView::<T>::lemma_fresh(cap);
        }
        list
    }

    /// The value at the head.
    pub fn top(&self) -> (value: Option<&T>)
        requires
            self.wf(),
        ensures
            value == match self@.top() {
                Some(v) => Some(&v),
                None => None,
            },
    {
        if let Some(head) = self.head {
            proof {
                self.arena.lemma_capacity_bound();
                assert(linked(self.arena@.slots, self.order@, 0));
            }
            match self.arena.at(head) {
                Some(node) => Some(&node.value),
                None => None,
            }
        } else {
            None
        }
    }

    /// The value at the tail.
    pub fn bottom(&self) -> (value: Option<&T>)
        requires
            self.wf(),
        ensures
            value == match self@.bottom() {
                Some(v) => Some(&v),
                None => None,
            },
    {
        if let Some(tail) = self.tail {
            proof {
                self.arena.lemma_capacity_bound();
                assert(linked(self.arena@.slots, self.order@, self.order@.len() - 1));
            }
            match self.arena.at(tail) {
                Some(node) => Some(&node.value),
                None => None,
            }
        } else {
            None
        }
    }
    /// Sets the backward link of the node in slot `index`.
    fn set_prev(arena: &mut GenArena<Node<T>>, index: usize, prev: Option<usize>)
        requires
            old(arena).wf(),
            old(arena)@.at(index as int) is Some,
        ensures
            final(arena).wf(),
            final(arena)@.free == old(arena)@.free,
            final(arena)@.slots == with_prev(old(arena)@.slots, index as int, prev),
    {
        match arena.at_mut(index) {
            Some(node) => {
                node.prev = prev;
            },
            None => {},
        }
    }

    /// Sets the forward link of the node in slot `index`.
    fn set_next(arena: &mut GenArena<Node<T>>, index: usize, next: Option<usize>)
        requires
            old(arena).wf(),
            old(arena)@.at(index as int) is Some,
        ensures
            final(arena).wf(),
            final(arena)@.free == old(arena)@.free,
            final(arena)@.slots == with_next(old(arena)@.slots, index as int, next),
    {
        match arena.at_mut(index) {
            Some(node) => {
                node.next = next;
            },
            None => {},
        }
    }

    /// The view's arena is well formed when the arena of nodes is.
    proof fn lemma_view_arena(&self)
        requires
            self.arena.wf(),
        ensures
            self@.arena().wf(),
            self@.values.len() == self.arena@.slots.len(),
            self@.values.len() <= usize::MAX,
            forall|i: int|
                0 <= i < self@.values.len() ==> (#[trigger] self@.values[i] is Some
                    <==> self.arena@.slots[i] is Some),
    {
        self.arena.lemma_capacity_bound();
        let a = self@.arena();
        assert forall|i: int| 0 <= i < a.slots.len() implies (#[trigger] a.slots[i] is None
            <==> a.free.contains(i)) by {
            assert(self.arena@.slots[i] is None <==> self.arena@.free.contains(i));
        }
    }

    /// Appends `elem` at the tail and returns the slot of its node; fails,
    /// changing nothing, when the arena is full.
    pub fn push(&mut self, elem: T) -> (r: Result<usize, &'static str>)
        requires
            old(self).wf(),
        ensures
            final(self).wf(),
            final(self)@ == old(self)@.push(elem),
            match r {
                Ok(index) => old(self)@.next_index() == Some(index as int),
                Err(msg) => old(self)@.next_index() is None && msg@ == "Arena is full!"@,
            },
    {
        proof {
            self.lemma_view_arena();
            self@.lemma_push(elem);
        }
        let ghost before = self.arena@.slots;
        let ghost order = self.order@;
        match self.arena.push(Node { value: elem, prev: self.tail, next: None }) {
            Ok(index) => {
                if let Some(tail) = self.tail {
                    assert(linked(before, order, order.len() - 1));
                    Self::set_next(&mut self.arena, tail, Some(index));
                } else {
                    self.head = Some(index);
                }
                self.tail = Some(index);
                self.order = Ghost(order.push(index as int));
                proof {
                    assert(self@.values =~= old(self)@.push(elem).values);
                    assert forall|k: int| 0 <= k < self.order@.len() implies #[trigger] linked(
                        self.arena@.slots,
                        self.order@,
                        k,
                    ) by {
                        if k < order.len() {
                            assert(linked(before, order, k));
                        }
                    }
                }
                Ok(index)
            },
            Err(err) => Err(err),
        }
    }

    /// Puts `elem` in front of the head and returns the slot of its node;
    /// fails, changing nothing, when the arena is full.
    pub fn shift_new(&mut self, elem: T) -> (r: Result<usize, &'static str>)
        requires
            old(self).wf(),
        ensures
            final(self).wf(),
            final(self)@ == old(self)@.shift_new(elem),
            match r {
                Ok(index) => old(self)@.next_index() == Some(index as int),
                Err(msg) => old(self)@.next_index() is None && msg@ == "Arena is full!"@,
            },
    {
        proof {
            self.lemma_view_arena();
            self@.lemma_shift_new(elem);
        }
        let ghost before = self.arena@.slots;
        let ghost order = self.order@;
        match self.arena.push(Node { value: elem, prev: None, next: self.head }) {
            Ok(index) => {
                if let Some(head) = self.head {
                    assert(linked(before, order, 0));
                    Self::set_prev(&mut self.arena, head, Some(index));
                } else {
                    self.tail = Some(index);
                }
                self.head = Some(index);
                self.order = Ghost(seq![index as int] + order);
                proof {
                    assert(self@.values =~= old(self)@.shift_new(elem).values);
                    assert forall|k: int| 0 <= k < self.order@.len() implies #[trigger] linked(
                        self.arena@.slots,
                        self.order@,
                        k,
                    ) by {
                        if k > 0 {
                            assert(linked(before, order, k - 1));
                        }
                    }
                }
                Ok(index)
            },
            Err(err) => Err(err),
        }
    }

    /// Moves the node in slot `index` to the head. Does nothing where that
    /// node is the head already, or where no node of the list lives there.
    pub fn shift(&mut self, index: usize)
        requires
            old(self).wf(),
        ensures
            final(self).wf(),
            final(self)@ == old(self)@.shift(index as int),
    {
        proof {
            self.lemma_view_arena();
            self@.lemma_shift(index as int);
        }
        let ghost before = self.arena@.slots;
        let ghost order = self.order@;
        let head = match self.head {
            Some(head) => head,
            None => {
                return ;
            },
        };
        if head == index {
            return ;
        }
        let (node_prev, node_next) = match self.arena.at(index) {
            Some(node) => (node.prev, node.next),
            None => {
                return ;
            },
        };
        let ghost p = order.index_of(index as int);
        proof {
            assert(self@.values[index as int] is Some);
            assert(order.contains(index as int));
            assert(linked(before, order, p));
            assert(linked(before, order, p - 1));
            assert(linked(before, order, 0));
            if p + 1 < order.len() {
                assert(linked(before, order, p + 1));
            }
            lemma_relinked(before, order, p);
        }
        if let Some(prev) = node_prev {
            Self::set_next(&mut self.arena, prev, node_next);
        }
        match node_next {
            Some(next) => {
                Self::set_prev(&mut self.arena, next, node_prev);
            },
            None => {
                self.tail = node_prev;
            },
        }
        Self::set_prev(&mut self.arena, head, Some(index));
        Self::set_prev(&mut self.arena, index, None);
        Self::set_next(&mut self.arena, index, Some(head));
        self.head = Some(index);
        self.order = Ghost(seq![index as int] + order.remove(p));
        proof {
            assert(self.arena@.slots == relinked(before, order, p));
            assert(self@.values =~= old(self)@.values);
        }
    }

    /// Unlinks the tail node and returns its value; nothing on an empty list.
    pub fn remove_bottom(&mut self) -> (value: Option<T>)
        requires
            old(self).wf(),
        ensures
            final(self).wf(),
            final(self)@ == old(self)@.remove_bottom(),
            value == old(self)@.bottom(),
    {
        proof {
            self.lemma_view_arena();
            self@.lemma_remove_bottom();
        }
        let ghost before = self.arena@.slots;
        let ghost order = self.order@;
        if let Some(tail) = self.tail {
            assert(linked(before, order, order.len() - 1));
            let prev = match self.arena.at(tail) {
                Some(bottom) => bottom.prev,
                None => None,
            };
            let removed_node = self.arena.remove(tail);
            if let Some(prev) = prev {
                assert(linked(before, order, order.len() - 2));
                Self::set_next(&mut self.arena, prev, None);
                self.tail = Some(prev);
            } else {
                self.head = None;
                self.tail = None;
            }
            self.order = Ghost(order.drop_last());
            proof {
                assert(self@.values =~= old(self)@.remove_bottom().values);
                assert forall|k: int| 0 <= k < self.order@.len() implies #[trigger] linked(
                    self.arena@.slots,
                    self.order@,
                    k,
                ) by {
                    assert(linked(before, order, k));
                }
            }
            match removed_node {
                Some(node) => Some(node.value),
                None => None,
            }
        } else {
            None
        }
    }
}

} // verus!
