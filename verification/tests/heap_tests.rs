use lib::heap::VarHeap;

#[test]
fn new_heap_is_empty() {
    let mut h = VarHeap::new(4);
    assert!(h.is_empty());
    assert_eq!(h.len(), 0);
    assert_eq!(h.remove_top(), None);
    for v in 0..4 {
        assert!(!h.contains(v));
        assert_eq!(h.activity(v), 0);
    }
}

#[test]
fn equal_keys_come_out_in_insertion_order() {
    let mut h = VarHeap::new(5);
    for v in 0..5 {
        h.insert(v);
    }
    assert_eq!(h.len(), 5);
    let mut out = Vec::new();
    while let Some(v) = h.remove_top() {
        out.push(v);
    }
    assert_eq!(out[0], 0);
    let mut sorted = out.clone();
    sorted.sort();
    assert_eq!(sorted, vec![0, 1, 2, 3, 4]);
}

#[test]
fn highest_key_comes_out_first() {
    let mut h = VarHeap::new(6);
    for v in 0..6 {
        h.insert(v);
    }
    h.set_activity(3, 50);
    h.set_activity(1, 70);
    h.set_activity(5, 60);
    h.set_activity(0, 10);
    assert_eq!(h.remove_top(), Some(1));
    assert_eq!(h.remove_top(), Some(5));
    assert_eq!(h.remove_top(), Some(3));
    assert_eq!(h.remove_top(), Some(0));
    assert!(!h.contains(1));
    assert!(h.contains(2));
    assert_eq!(h.len(), 2);
}

#[test]
fn inserting_twice_keeps_one_copy() {
    let mut h = VarHeap::new(3);
    h.insert(2);
    h.insert(2);
    assert_eq!(h.len(), 1);
    assert_eq!(h.remove_top(), Some(2));
    assert!(h.is_empty());
}

#[test]
fn keys_of_absent_variables_can_change() {
    let mut h = VarHeap::new(3);
    h.set_activity(1, 9);
    assert!(!h.contains(1));
    h.insert(0);
    h.insert(1);
    assert_eq!(h.activity(1), 9);
    assert_eq!(h.remove_top(), Some(1));
}

#[test]
fn lowering_a_key_moves_it_down() {
    let mut h = VarHeap::new(4);
    for v in 0..4 {
        h.insert(v);
        h.set_activity(v, 10 + v as u64);
    }
    h.set_activity(3, 1);
    assert_eq!(h.remove_top(), Some(2));
    assert_eq!(h.remove_top(), Some(1));
    assert_eq!(h.remove_top(), Some(0));
    assert_eq!(h.remove_top(), Some(3));
}

#[test]
fn rekeying_reorders_when_needed() {
    let mut h = VarHeap::new(4);
    for v in 0..4 {
        h.insert(v);
    }
    h.rekey(vec![1, 4, 3, 2]);
    assert_eq!(h.activity(1), 4);
    assert_eq!(h.remove_top(), Some(1));
    assert_eq!(h.remove_top(), Some(2));
    assert_eq!(h.remove_top(), Some(3));
    assert_eq!(h.remove_top(), Some(0));
}

#[test]
fn equal_keys_leave_entries_in_place() {
    let mut h = VarHeap::new(3);
    h.insert(0);
    h.insert(1);
    h.insert(2);
    // The root goes, the last entry takes its place and stays there: its
    // children do not have a larger key.
    assert_eq!(h.remove_top(), Some(0));
    assert_eq!(h.remove_top(), Some(2));
    assert_eq!(h.remove_top(), Some(1));
    assert_eq!(h.remove_top(), None);
}
