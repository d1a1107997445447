use std::rc::Rc;
use typed_arena::{Arena, IterMut};

#[derive(Debug, PartialEq, Eq, Clone, Copy)]
struct Point {
    x: i32,
    y: i32,
}

fn bump_all(it: &mut IterMut<'_, i32>, by: i32) -> usize {
    let mut n = 0;
    while let Some(v) = it.next() {
        *v += by;
        n += 1;
    }
    n
}

#[test]
fn alloc_returns_the_value() {
    let mut arena = Arena::new();
    let x = arena.alloc_value(42);
    assert_eq!(*x, 42);
}

#[test]
fn three_values_across_a_growth_keep_their_order() {
    let mut arena = Arena::with_capacity(2);
    arena.alloc_value("a");
    arena.alloc_value("b");
    arena.alloc_value("c");
    assert_eq!(arena.into_vec(), vec!["a", "b", "c"]);
}

#[test]
fn into_vec_keeps_allocation_order() {
    let mut arena = Arena::new();
    arena.alloc_value("a");
    arena.alloc_value("b");
    arena.alloc_value("c");
    assert_eq!(arena.into_vec(), vec!["a", "b", "c"]);
}

#[test]
fn into_vec_of_empty_arena_is_empty() {
    let arena: Arena<u8> = Arena::with_capacity(3);
    assert_eq!(arena.into_vec(), Vec::<u8>::new());
}

#[test]
fn extend_with_underreported_hint_stays_contiguous() {
    let mut arena = Arena::with_capacity(4);
    arena.alloc_value(1);
    arena.alloc_value(2);
    let r = arena.alloc_extend(vec![10, 11, 12, 13, 14, 15], 2);
    assert_eq!(r, 0..6);
    assert_eq!(arena.into_vec(), vec![1, 2, 10, 11, 12, 13, 14, 15]);
}

#[test]
fn extend_with_underreported_hint_on_empty_arena() {
    let mut arena = Arena::with_capacity(4);
    let r = arena.alloc_extend(vec!['a', 'b', 'c', 'd', 'e', 'f'], 2);
    assert_eq!(r, 0..6);
    assert_eq!(arena.into_vec(), vec!['a', 'b', 'c', 'd', 'e', 'f']);
}

#[test]
fn extend_that_fits_follows_earlier_values() {
    let mut arena = Arena::with_capacity(8);
    arena.alloc_value(1);
    let r = arena.alloc_extend(vec![2, 3, 4], 3);
    assert_eq!(r, 1..4);
    assert_eq!(arena.into_vec(), vec![1, 2, 3, 4]);
}

#[test]
fn extend_that_fills_the_chunk_exactly_does_not_grow() {
    let mut arena = Arena::with_capacity(4);
    arena.alloc_value(1);
    let r = arena.alloc_extend(vec![2, 3, 4], 0);
    assert_eq!(r, 1..4);
    let r = arena.alloc_extend(vec![5], 0);
    assert_eq!(r, 0..1);
    assert_eq!(arena.into_vec(), vec![1, 2, 3, 4, 5]);
}

#[test]
fn extend_with_large_hint_starts_a_new_chunk() {
    let mut arena = Arena::with_capacity(2);
    arena.alloc_value(7);
    let r = arena.alloc_extend(vec![8, 9, 10], 3);
    assert_eq!(r, 0..3);
    assert_eq!(arena.into_vec(), vec![7, 8, 9, 10]);
}

#[test]
fn extend_with_nothing_is_an_empty_range() {
    let mut arena = Arena::with_capacity(2);
    arena.alloc_value(7);
    let r = arena.alloc_extend(Vec::new(), 0);
    assert_eq!(r, 1..1);
    assert_eq!(arena.into_vec(), vec![7]);
}

#[test]
fn extend_takes_chars() {
    let mut arena = Arena::new();
    let abc: Vec<char> = "abcdefg".chars().take(3).collect();
    let r = arena.alloc_extend(abc, 3);
    assert_eq!(r, 0..3);
    assert_eq!(arena.into_vec(), vec!['a', 'b', 'c']);
}

#[test]
fn earlier_values_survive_many_growths() {
    let mut arena = Arena::with_capacity(1);
    let first = arena.alloc_value(0u32);
    *first = 100;
    for i in 1..1000u32 {
        let v = arena.alloc_value(i);
        assert_eq!(*v, i);
    }
    let all = arena.into_vec();
    assert_eq!(all.len(), 1000);
    assert_eq!(all[0], 100);
    for i in 1..1000usize {
        assert_eq!(all[i], i as u32);
    }
}

#[test]
fn bulk_and_single_allocation_hold_the_same_values() {
    let mut one_by_one = Arena::with_capacity(3);
    for i in 0..10 {
        one_by_one.alloc_value(i);
    }
    let mut bulk = Arena::with_capacity(3);
    bulk.alloc_extend((0..10).collect(), 0);
    assert_eq!(one_by_one.into_vec(), bulk.into_vec());
}

#[test]
fn capacity_zero_acts_as_capacity_one() {
    let mut zero = Arena::with_capacity(0);
    let mut one = Arena::with_capacity(1);
    assert_eq!(zero.alloc_extend(vec![1], 1), one.alloc_extend(vec![1], 1));
    assert_eq!(zero.alloc_extend(vec![2], 1), one.alloc_extend(vec![2], 1));
    assert_eq!(zero.alloc_extend(vec![3, 4], 0), one.alloc_extend(vec![3, 4], 0));
    assert_eq!(zero.into_vec(), one.into_vec());
}

#[test]
fn capacity_one_second_value_starts_a_chunk() {
    let mut arena = Arena::with_capacity(1);
    assert_eq!(arena.alloc_extend(vec![1], 1), 0..1);
    assert_eq!(arena.alloc_extend(vec![2], 1), 0..1);
    assert_eq!(arena.alloc_extend(vec![3], 1), 1..2);
}

#[test]
fn new_arena_first_chunk_holds_a_kilobyte() {
    let mut arena: Arena<u64> = Arena::new();
    let r = arena.alloc_extend((0..128).collect(), 0);
    assert_eq!(r, 0..128);
    let r = arena.alloc_extend(vec![128], 0);
    assert_eq!(r, 0..1);
}

#[test]
fn default_matches_new() {
    let mut arena: Arena<u8> = Arena::default();
    arena.alloc_value(5);
    assert_eq!(arena.into_vec(), vec![5]);
}

#[test]
fn iter_mut_visits_each_value_once_in_order() {
    let mut arena = Arena::with_capacity(2);
    for i in 0..7 {
        arena.alloc_value(i);
    }
    arena.alloc_extend(vec![7, 8, 9], 1);
    let mut it = arena.iter_mut();
    let n = bump_all(&mut it, 10);
    assert_eq!(n, 10);
    assert!(it.next().is_none());
    assert_eq!(arena.into_vec(), (10..20).collect::<Vec<i32>>());
}

#[test]
fn iter_mut_on_empty_arena_yields_nothing() {
    let mut arena: Arena<i32> = Arena::new();
    let mut it = arena.iter_mut();
    assert!(it.next().is_none());
}

#[test]
fn iter_mut_skips_a_chunk_emptied_by_a_bulk_call() {
    let mut arena = Arena::with_capacity(2);
    arena.alloc_extend(vec![1, 2, 3], 0);
    let mut it = arena.iter_mut();
    assert_eq!(bump_all(&mut it, 1), 3);
    assert_eq!(arena.into_vec(), vec![2, 3, 4]);
}

#[test]
fn iter_mut_modifies_points() {
    let mut arena = Arena::new();
    arena.alloc_value(Point { x: 0, y: 0 });
    arena.alloc_value(Point { x: 1, y: 1 });
    let mut it = arena.iter_mut();
    while let Some(p) = it.next() {
        p.x += 10;
    }
    assert_eq!(arena.into_vec(), vec![Point { x: 10, y: 0 }, Point { x: 11, y: 1 }]);
}

struct Node {
    name: &'static str,
    other: std::cell::Cell<Option<usize>>,
}

#[test]
fn linked_values_are_dropped_with_the_arena() {
    let mut arena = Arena::with_capacity(1);
    let a = arena.alloc_value(Node { name: "a", other: std::cell::Cell::new(None) });
    a.other.set(Some(1));
    let b = arena.alloc_value(Node { name: "b", other: std::cell::Cell::new(None) });
    b.other.set(Some(0));
    let nodes = arena.into_vec();
    assert_eq!(nodes[0].name, "a");
    assert_eq!(nodes[nodes[0].other.get().unwrap()].name, "b");
    assert_eq!(nodes[nodes[1].other.get().unwrap()].name, "a");
    drop(nodes);
}

#[test]
fn every_value_is_dropped_exactly_once() {
    let marker = Rc::new(());
    {
        let mut arena = Arena::with_capacity(2);
        for _ in 0..5 {
            arena.alloc_value(Rc::clone(&marker));
        }
        arena.alloc_extend(vec![Rc::clone(&marker), Rc::clone(&marker), Rc::clone(&marker)], 1);
        assert_eq!(Rc::strong_count(&marker), 9);
    }
    assert_eq!(Rc::strong_count(&marker), 1);
}
