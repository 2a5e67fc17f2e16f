use opengeometry::arena::Arena;
use opengeometry::base_types::Id;

#[test]
fn new_arena_is_empty() {
    let arena: Arena<u32> = Arena::new();
    assert!(arena.ids().is_empty());
    assert!(arena.iter().is_empty());
    assert_eq!(arena.get(Id::new(0, 0)), None);
}

#[test]
fn insert_hands_out_sequential_ids() {
    let mut arena = Arena::new();
    let a = arena.insert("a");
    let b = arena.insert("b");
    assert_eq!(a, Id::new(0, 0));
    assert_eq!(b, Id::new(1, 0));
    assert_eq!(arena.get(a), Some(&"a"));
    assert_eq!(arena.get(b), Some(&"b"));
}

#[test]
fn get_mut_changes_the_value() {
    let mut arena = Arena::new();
    let a = arena.insert(10);
    *arena.get_mut(a).unwrap() += 5;
    assert_eq!(arena.get(a), Some(&15));
    assert!(arena.get_mut(Id::new(0, 1)).is_none());
    assert!(arena.get_mut(Id::new(7, 0)).is_none());
}

#[test]
fn remove_returns_the_value_and_retires_the_id() {
    let mut arena = Arena::new();
    let a = arena.insert(1);
    let b = arena.insert(2);
    assert_eq!(arena.remove(a), Some(1));
    assert_eq!(arena.get(a), None);
    assert_eq!(arena.remove(a), None);
    assert_eq!(arena.get(b), Some(&2));
}

#[test]
fn removed_slot_is_reused_at_next_generation() {
    let mut arena = Arena::new();
    let a = arena.insert('a');
    let _b = arena.insert('b');
    arena.remove(a);
    let c = arena.insert('c');
    assert_eq!(c, Id::new(0, 1));
    assert_eq!(arena.get(a), None);
    assert_eq!(arena.get(c), Some(&'c'));
}

#[test]
fn freed_slots_are_reused_most_recent_first() {
    let mut arena = Arena::new();
    let a = arena.insert(0);
    let b = arena.insert(1);
    let _c = arena.insert(2);
    arena.remove(a);
    arena.remove(b);
    assert_eq!(arena.insert(10), Id::new(1, 1));
    assert_eq!(arena.insert(11), Id::new(0, 1));
    assert_eq!(arena.insert(12), Id::new(3, 0));
}

#[test]
fn remove_with_wrong_generation_does_nothing() {
    let mut arena = Arena::new();
    let a = arena.insert(5);
    assert_eq!(arena.remove(Id::new(0, 3)), None);
    assert_eq!(arena.remove(Id::new(4, 0)), None);
    assert_eq!(arena.get(a), Some(&5));
}

#[test]
fn ids_and_iter_follow_slot_order() {
    let mut arena = Arena::new();
    let a = arena.insert("a");
    let b = arena.insert("b");
    let c = arena.insert("c");
    arena.remove(b);
    assert_eq!(arena.ids(), vec![a, c]);
    assert_eq!(arena.iter(), vec![&"a", &"c"]);
    assert_eq!(arena.iter_with_ids(), vec![(a, &"a"), (c, &"c")]);
    let d = arena.insert("d");
    assert_eq!(arena.ids(), vec![a, d, c]);
}

#[test]
fn iter_lists_values_in_insertion_order() {
    let mut arena = Arena::new();
    arena.insert(1);
    arena.insert(2);
    arena.insert(3);
    assert_eq!(arena.iter(), vec![&1, &2, &3]);
}

#[test]
fn reused_slot_comes_first_in_iter() {
    let mut arena = Arena::new();
    let i = arena.insert(10);
    let j = arena.insert(20);
    arena.remove(i);
    let k = arena.insert(30);
    assert_eq!(arena.iter(), vec![&30, &20]);
    assert_eq!(arena.iter_with_ids(), vec![(k, &30), (j, &20)]);
}

#[test]
fn failed_remove_leaves_the_arena_unchanged() {
    let mut arena = Arena::new();
    let a = arena.insert(1);
    let b = arena.insert(2);
    arena.remove(a);
    assert_eq!(arena.remove(a), None);
    assert_eq!(arena.remove(Id::new(1, 5)), None);
    assert_eq!(arena.remove(Id::new(9, 0)), None);
    assert_eq!(arena.ids(), vec![b]);
    assert_eq!(arena.insert(3), Id::new(0, 1));
    assert_eq!(arena.insert(4), Id::new(2, 0));
}

#[test]
fn removed_id_stays_invalid_through_reuse() {
    let mut arena = Arena::new();
    let a = arena.insert(0);
    arena.remove(a);
    for round in 0..5 {
        let x = arena.insert(round);
        assert_eq!(x.index, a.index);
        assert_eq!(arena.get(a), None);
        assert!(arena.get_mut(a).is_none());
        arena.remove(x);
        assert_eq!(arena.get(a), None);
    }
}
