use stack_exercises::stack::{Stack, StackError};

#[test]
fn test_stack() {
    let mut s = Stack::new();
    for i in 1..20 {
        s.push(i);
    }
    assert_eq!(s.size(), 19);
    assert!(!s.empty());
    assert!(s.capacity() >= s.size());
    assert_eq!(*s.peek().unwrap(), 19);
    assert_eq!(*s.get_all_elements(), (1..20).collect::<Vec<i32>>());
    for _i in 1..19 {
        let val: i32 = s.pop().unwrap();
        let _ = val;
    }
    assert_eq!(s.size(), 1);
    s.pop().unwrap();
    assert!(s.empty());
    assert!(s.get_all_elements().is_empty());
}

#[test]
fn pops_reverse_push_order() {
    let mut s = Stack::new();
    let pushed = vec![10, 20, 30, 40];
    for v in &pushed {
        s.push(*v);
    }
    let mut popped = Vec::new();
    while !s.empty() {
        popped.push(s.pop().unwrap());
    }
    let mut reversed = pushed.clone();
    reversed.reverse();
    assert_eq!(popped, reversed);
    assert!(s.empty());
}

#[test]
fn size_counts_pushes_minus_pops() {
    let mut s = Stack::new();
    assert_eq!(s.size(), 0);
    assert!(s.empty());
    for i in 0..7 {
        s.push(i);
    }
    assert_eq!(s.size(), 7);
    for _ in 0..3 {
        s.pop().unwrap();
    }
    assert_eq!(s.size(), 4);
    assert!(!s.empty());
    for _ in 0..4 {
        s.pop().unwrap();
    }
    assert_eq!(s.size(), 0);
    assert!(s.empty());
}

#[test]
fn new_stack_reserves_a_default_capacity() {
    let s: Stack<i32> = Stack::new();
    assert!(s.empty());
    assert!(s.capacity() >= 16);
}

#[test]
fn capacity_never_below_size() {
    let mut s = Stack::new();
    assert!(s.capacity() >= s.size());
    for i in 0..40 {
        s.push(i);
        assert!(s.capacity() >= s.size());
    }
    for _ in 0..40 {
        s.pop().unwrap();
        assert!(s.capacity() >= s.size());
    }
    s.push(1);
    s.clear();
    assert!(s.capacity() >= s.size());
}

#[test]
fn empty_stack_pop_and_peek_fail() {
    let mut s: Stack<u8> = Stack::new();
    assert_eq!(s.pop(), Err(StackError::EmptyStackError));
    assert_eq!(s.peek(), Err(StackError::EmptyStackError));
    s.push(5);
    s.pop().unwrap();
    assert_eq!(s.pop(), Err(StackError::EmptyStackError));
    assert_eq!(s.peek(), Err(StackError::EmptyStackError));
}

#[test]
fn peek_leaves_the_stack_unchanged() {
    let mut s = Stack::new();
    s.push(3);
    s.push(8);
    assert_eq!(*s.peek().unwrap(), 8);
    assert_eq!(s.size(), 2);
    assert_eq!(*s.peek().unwrap(), 8);
}

#[test]
fn indexed_access_checks_its_range() {
    let mut s = Stack::new();
    s.push('a');
    s.push('b');
    assert_eq!(s.get_item_by_idx(0), Ok(&'a'));
    assert_eq!(s.get_item_by_idx(1), Ok(&'b'));
    assert_eq!(s.get_item_by_idx(2), Err(StackError::IndexRangeError));
}

#[test]
fn clear_removes_every_element() {
    let mut s = Stack::new();
    for i in 0..5 {
        s.push(i);
    }
    s.clear();
    assert_eq!(s.size(), 0);
    assert!(s.empty());
    assert!(s.get_all_elements().is_empty());
    s.push(9);
    assert_eq!(*s.peek().unwrap(), 9);
}
