use cache::utils::doubly_linked_list::DoublyLinkedList;

#[test]
fn empty_list_has_no_top_or_bottom() {
    let mut list: DoublyLinkedList<u32> = DoublyLinkedList::new();
    assert_eq!(list.top(), None);
    assert_eq!(list.bottom(), None);
    assert_eq!(list.remove_bottom(), None);
    assert_eq!(list.top(), None);
}

#[test]
fn new_list_holds_ten() {
    let mut list: DoublyLinkedList<u32> = DoublyLinkedList::new();
    for i in 0..10 {
        assert_eq!(list.push(i), Ok(i as usize));
    }
    assert_eq!(list.push(10), Err("Arena is full!"));
    assert_eq!(list.shift_new(10), Err("Arena is full!"));
    assert_eq!(list.top(), Some(&0));
    assert_eq!(list.bottom(), Some(&9));
}

#[test]
fn list_capacity_zero_becomes_ten() {
    let mut list: DoublyLinkedList<u32> = DoublyLinkedList::with_capacity(0);
    for i in 0..10 {
        assert!(list.shift_new(i).is_ok());
    }
    assert!(list.shift_new(10).is_err());
}

#[test]
fn first_push_is_head_and_tail() {
    let mut list: DoublyLinkedList<&str> = DoublyLinkedList::with_capacity(3);
    assert_eq!(list.push("a"), Ok(0));
    assert_eq!(list.top(), Some(&"a"));
    assert_eq!(list.bottom(), Some(&"a"));
}

#[test]
fn first_shift_new_is_head_and_tail() {
    let mut list: DoublyLinkedList<&str> = DoublyLinkedList::with_capacity(3);
    assert_eq!(list.shift_new("a"), Ok(0));
    assert_eq!(list.top(), Some(&"a"));
    assert_eq!(list.bottom(), Some(&"a"));
}

#[test]
fn push_appends_and_shift_new_prepends() {
    let mut list: DoublyLinkedList<u32> = DoublyLinkedList::with_capacity(4);
    list.push(1).unwrap();
    list.push(2).unwrap();
    assert_eq!(list.top(), Some(&1));
    assert_eq!(list.bottom(), Some(&2));
    list.shift_new(0).unwrap();
    assert_eq!(list.top(), Some(&0));
    assert_eq!(list.bottom(), Some(&2));
}

#[test]
fn shift_of_the_head_changes_nothing() {
    let mut list: DoublyLinkedList<u32> = DoublyLinkedList::with_capacity(4);
    let a = list.push(1).unwrap();
    list.push(2).unwrap();
    list.push(3).unwrap();
    list.shift(a);
    assert_eq!(list.top(), Some(&1));
    assert_eq!(list.bottom(), Some(&3));
    assert_eq!(list.remove_bottom(), Some(3));
    assert_eq!(list.remove_bottom(), Some(2));
    assert_eq!(list.remove_bottom(), Some(1));
    assert_eq!(list.remove_bottom(), None);
}

#[test]
fn shift_of_a_middle_node_makes_it_head_and_keeps_bottom() {
    let mut list: DoublyLinkedList<u32> = DoublyLinkedList::with_capacity(4);
    list.push(1).unwrap();
    let b = list.push(2).unwrap();
    list.push(3).unwrap();
    list.shift(b);
    assert_eq!(list.top(), Some(&2));
    assert_eq!(list.bottom(), Some(&3));
    assert_eq!(list.remove_bottom(), Some(3));
    assert_eq!(list.remove_bottom(), Some(1));
    assert_eq!(list.remove_bottom(), Some(2));
    assert_eq!(list.remove_bottom(), None);
}

#[test]
fn shift_of_the_tail_moves_the_tail_back() {
    let mut list: DoublyLinkedList<u32> = DoublyLinkedList::with_capacity(4);
    list.push(1).unwrap();
    list.push(2).unwrap();
    let c = list.push(3).unwrap();
    list.shift(c);
    assert_eq!(list.top(), Some(&3));
    assert_eq!(list.bottom(), Some(&2));
    assert_eq!(list.remove_bottom(), Some(2));
    assert_eq!(list.remove_bottom(), Some(1));
    assert_eq!(list.remove_bottom(), Some(3));
    assert_eq!(list.top(), None);
    assert_eq!(list.bottom(), None);
}

#[test]
fn shift_of_the_second_of_two() {
    let mut list: DoublyLinkedList<u32> = DoublyLinkedList::with_capacity(2);
    list.push(1).unwrap();
    let b = list.push(2).unwrap();
    list.shift(b);
    assert_eq!(list.top(), Some(&2));
    assert_eq!(list.bottom(), Some(&1));
    assert_eq!(list.remove_bottom(), Some(1));
    assert_eq!(list.top(), Some(&2));
    assert_eq!(list.bottom(), Some(&2));
}

#[test]
fn shift_of_a_stale_index_changes_nothing() {
    let mut list: DoublyLinkedList<u32> = DoublyLinkedList::with_capacity(3);
    list.shift(0);
    list.push(1).unwrap();
    list.push(2).unwrap();
    list.shift(2);
    list.shift(77);
    assert_eq!(list.top(), Some(&1));
    assert_eq!(list.bottom(), Some(&2));
    assert_eq!(list.remove_bottom(), Some(2));
    list.shift(1);
    assert_eq!(list.top(), Some(&1));
    assert_eq!(list.bottom(), Some(&1));
}

#[test]
fn two_shift_new_then_remove_bottom() {
    let mut list: DoublyLinkedList<char> = DoublyLinkedList::with_capacity(2);
    list.shift_new('a').unwrap();
    list.shift_new('b').unwrap();
    assert_eq!(list.remove_bottom(), Some('a'));
    assert_eq!(list.top(), Some(&'b'));
    assert_eq!(list.bottom(), Some(&'b'));
}

#[test]
fn indices_are_stable_and_reused() {
    let mut list: DoublyLinkedList<u32> = DoublyLinkedList::with_capacity(3);
    let a = list.shift_new(1).unwrap();
    let b = list.shift_new(2).unwrap();
    let c = list.push(3).unwrap();
    assert_eq!((a, b, c), (0, 1, 2));
    assert_eq!(list.push(4), Err("Arena is full!"));
    assert_eq!(list.remove_bottom(), Some(3));
    assert_eq!(list.shift_new(5), Ok(2));
    list.shift(a);
    assert_eq!(list.top(), Some(&1));
    list.shift(b);
    assert_eq!(list.top(), Some(&2));
    assert_eq!(list.bottom(), Some(&5));
}

#[test]
fn remove_bottom_of_the_last_node_empties_the_list() {
    let mut list: DoublyLinkedList<u32> = DoublyLinkedList::with_capacity(2);
    list.push(1).unwrap();
    assert_eq!(list.remove_bottom(), Some(1));
    assert_eq!(list.top(), None);
    assert_eq!(list.bottom(), None);
    assert_eq!(list.push(2), Ok(0));
    assert_eq!(list.top(), Some(&2));
    assert_eq!(list.bottom(), Some(&2));
}
