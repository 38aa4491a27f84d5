use linked_list::arena::Arena;
use linked_list::{access, find, insert, remove};

/// Builds a chain holding `vals` in order; returns the arena and the head handle.
fn build_chain(vals: &[i64]) -> (Arena, usize) {
    let mut arena = Arena::new();
    let head = arena.add_node(vals[0]);
    let mut tail = head;
    for &v in &vals[1..] {
        let n = arena.add_node(v);
        insert(&mut arena, tail, n);
        tail = n;
    }
    (arena, head)
}

#[test]
fn build_and_read_values() {
    let (arena, head) = build_chain(&[1, 3, 2, 5, 4]);
    assert_eq!(arena.values(head), vec![1, 3, 2, 5, 4]);
    assert_eq!(arena.len(), 5);
    assert_eq!(arena.val_of(head), 1);
}

#[test]
fn insert_links_new_node_after_anchor() {
    let (mut arena, head) = build_chain(&[1, 3, 2]);
    let old_next = arena.next_of(head);
    let p = arena.add_node(9);
    insert(&mut arena, head, p);
    assert_eq!(arena.next_of(head), Some(p));
    assert_eq!(arena.next_of(p), old_next);
    assert_eq!(arena.values(head), vec![1, 9, 3, 2]);
}

#[test]
fn insert_after_tail_extends_chain() {
    let (mut arena, head) = build_chain(&[4, 6]);
    let tail = access(&arena, head, 1);
    assert_eq!(arena.next_of(tail), None);
    let p = arena.add_node(8);
    insert(&mut arena, tail, p);
    assert_eq!(arena.next_of(tail), Some(p));
    assert_eq!(arena.next_of(p), None);
    assert_eq!(arena.values(head), vec![4, 6, 8]);
}

#[test]
fn remove_unlinks_and_detaches_successor() {
    let (mut arena, head) = build_chain(&[1, 3, 2, 5]);
    let removed = arena.next_of(head).unwrap();
    let after_removed = arena.next_of(removed);
    remove(&mut arena, head);
    assert_eq!(arena.next_of(head), after_removed);
    assert_eq!(arena.next_of(removed), None);
    assert_eq!(arena.values(head), vec![1, 2, 5]);
    assert!(!arena.values(head).contains(&3));
}

#[test]
fn remove_at_tail_is_noop() {
    let (mut arena, head) = build_chain(&[1, 3, 2]);
    let tail = access(&arena, head, 2);
    let before = arena.values(head);
    remove(&mut arena, tail);
    assert_eq!(arena.values(head), before);
    assert_eq!(arena.next_of(tail), None);
    assert_eq!(arena.len(), 3);
}

#[test]
fn access_returns_node_at_index() {
    let (arena, head) = build_chain(&[10, 20, 30, 40]);
    for (i, want) in [(0, 10), (1, 20), (2, 30), (3, 40)] {
        let node = access(&arena, head, i);
        assert_eq!(arena.val_of(node), want);
    }
}

#[test]
fn access_clamps_to_head_and_tail() {
    let (arena, head) = build_chain(&[10, 20, 30]);
    assert_eq!(access(&arena, head, 0), head);
    assert_eq!(access(&arena, head, -7), head);
    let tail = access(&arena, head, 2);
    assert_eq!(access(&arena, head, 3), tail);
    assert_eq!(access(&arena, head, 1000), tail);
}

#[test]
fn find_returns_first_matching_index() {
    let (arena, head) = build_chain(&[7, 8, 7, 9]);
    assert_eq!(find(&arena, head, 7, 0), 0);
    assert_eq!(find(&arena, head, 8, 0), 1);
    assert_eq!(find(&arena, head, 9, 0), 3);
}

#[test]
fn find_missing_value_returns_minus_one() {
    let (arena, head) = build_chain(&[7, 8, 9]);
    assert_eq!(find(&arena, head, 42, 0), -1);
}

#[test]
fn find_counts_from_start_index() {
    let (arena, head) = build_chain(&[5, 6, 7]);
    assert_eq!(find(&arena, head, 7, 10), 12);
    assert_eq!(find(&arena, head, 5, 3), 3);
    assert_eq!(find(&arena, head, 42, 10), -1);
}

#[test]
fn single_node_chain() {
    let mut arena = Arena::new();
    let head = arena.add_node(11);
    assert_eq!(arena.values(head), vec![11]);
    assert_eq!(access(&arena, head, 0), head);
    assert_eq!(access(&arena, head, 5), head);
    assert_eq!(find(&arena, head, 11, 0), 0);
    assert_eq!(find(&arena, head, 12, 0), -1);
    remove(&mut arena, head);
    assert_eq!(arena.values(head), vec![11]);
}

#[test]
fn chains_not_through_anchor_are_untouched() {
    let (mut arena, head) = build_chain(&[1, 3, 2]);
    let other_head = arena.add_node(50);
    let other_next = arena.add_node(60);
    insert(&mut arena, other_head, other_next);
    let p = arena.add_node(0);
    insert(&mut arena, head, p);
    remove(&mut arena, head);
    assert_eq!(arena.values(other_head), vec![50, 60]);
}

#[test]
fn demo_scenario() {
    let (mut arena, head) = build_chain(&[1, 3, 2, 5, 4]);
    assert_eq!(arena.values(head), vec![1, 3, 2, 5, 4]);

    let p = arena.add_node(0);
    insert(&mut arena, head, p);
    assert_eq!(arena.values(head), vec![1, 0, 3, 2, 5, 4]);

    remove(&mut arena, head);
    assert_eq!(arena.values(head), vec![1, 3, 2, 5, 4]);

    let node = access(&arena, head, 3);
    assert_eq!(arena.val_of(node), 5);

    let index = find(&arena, head, 2, 0);
    assert_eq!(index, 2);
}
