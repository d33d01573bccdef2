use cache::utils::gen_arena::GenArena;

#[test]
fn new_arena_has_ten_free_slots() {
    let mut arena: GenArena<u32> = GenArena::new();
    assert_eq!(arena.len(), 0);
    assert!(!arena.is_full());
    for i in 0..10 {
        assert_eq!(arena.push(i), Ok(i as usize));
    }
    assert!(arena.is_full());
    assert_eq!(arena.len(), 10);
    assert_eq!(arena.push(99), Err("Arena is full!"));
    assert_eq!(arena.len(), 10);
}

#[test]
fn capacity_zero_becomes_ten() {
    let mut arena: GenArena<u8> = GenArena::with_capacity(0);
    for i in 0..10u8 {
        assert!(arena.push(i).is_ok());
    }
    assert!(arena.is_full());
    assert!(arena.push(10).is_err());
}

#[test]
fn capacity_one_fills_at_once() {
    let mut arena: GenArena<&str> = GenArena::with_capacity(1);
    assert!(!arena.is_full());
    assert_eq!(arena.push("a"), Ok(0));
    assert!(arena.is_full());
    assert_eq!(arena.push("b"), Err("Arena is full!"));
    assert_eq!(arena.at(0), Some(&"a"));
}

#[test]
fn push_hands_out_slots_in_rising_order() {
    let mut arena: GenArena<char> = GenArena::with_capacity(3);
    assert_eq!(arena.push('x'), Ok(0));
    assert_eq!(arena.push('y'), Ok(1));
    assert_eq!(arena.push('z'), Ok(2));
    assert_eq!(arena.at(0), Some(&'x'));
    assert_eq!(arena.at(1), Some(&'y'));
    assert_eq!(arena.at(2), Some(&'z'));
    assert_eq!(arena.at(3), None);
}

#[test]
fn len_counts_live_indices_through_push_and_remove() {
    let mut arena: GenArena<u32> = GenArena::with_capacity(4);
    assert_eq!(arena.len(), 0);
    arena.push(10).unwrap();
    arena.push(20).unwrap();
    arena.push(30).unwrap();
    assert_eq!(arena.len(), 3);
    assert_eq!(arena.remove(1), Some(20));
    assert_eq!(arena.len(), 2);
    assert_eq!(arena.remove(1), None);
    assert_eq!(arena.len(), 2);
    arena.push(40).unwrap();
    arena.push(50).unwrap();
    assert_eq!(arena.len(), 4);
    assert!(arena.is_full());
    assert_eq!(arena.remove(0), Some(10));
    assert!(!arena.is_full());
    assert_eq!(arena.len(), 3);
}

#[test]
fn removed_slot_is_empty_and_reused_first() {
    let mut arena: GenArena<u32> = GenArena::with_capacity(4);
    arena.push(1).unwrap();
    arena.push(2).unwrap();
    arena.push(3).unwrap();
    assert_eq!(arena.remove(1), Some(2));
    assert_eq!(arena.at(1), None);
    assert_eq!(arena.push(7), Ok(1));
    assert_eq!(arena.at(1), Some(&7));
    assert_eq!(arena.push(8), Ok(3));
}

#[test]
fn free_list_is_last_in_first_out() {
    let mut arena: GenArena<u32> = GenArena::with_capacity(3);
    arena.push(1).unwrap();
    arena.push(2).unwrap();
    arena.push(3).unwrap();
    arena.remove(0);
    arena.remove(2);
    assert_eq!(arena.push(4), Ok(2));
    assert_eq!(arena.push(5), Ok(0));
    assert!(arena.is_full());
}

#[test]
fn remove_out_of_range_or_free_changes_nothing() {
    let mut arena: GenArena<u32> = GenArena::with_capacity(2);
    arena.push(5).unwrap();
    assert_eq!(arena.remove(2), None);
    assert_eq!(arena.remove(100), None);
    assert_eq!(arena.remove(1), None);
    assert_eq!(arena.len(), 1);
    assert_eq!(arena.push(6), Ok(1));
}

#[test]
fn at_mut_changes_the_value_in_place() {
    let mut arena: GenArena<String> = GenArena::with_capacity(2);
    let index = arena.push(String::from("a")).unwrap();
    if let Some(value) = arena.at_mut(index) {
        value.push('b');
    }
    assert_eq!(arena.at(index), Some(&String::from("ab")));
    assert!(arena.at_mut(1).is_none());
    assert!(arena.at_mut(2).is_none());
    assert_eq!(arena.len(), 1);
}

#[test]
fn iter_yields_the_occupied_values_each_once() {
    let mut arena: GenArena<u32> = GenArena::with_capacity(5);
    assert!(arena.iter().is_empty());
    for v in [10, 20, 30, 40] {
        arena.push(v).unwrap();
    }
    arena.remove(1);
    assert_eq!(arena.iter(), vec![&10, &30, &40]);
    arena.push(50).unwrap();
    assert_eq!(arena.iter(), vec![&10, &50, &30, &40]);
    assert_eq!(arena.iter().len(), arena.len());
}
