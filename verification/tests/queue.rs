use cs431::lockfree::{Queue, Stack};

/// Pops, retrying until an element is there.
fn pop(q: &mut Queue<i64>) -> i64 {
    loop {
        if let Some(t) = q.try_pop() {
            return t;
        }
    }
}

#[test]
fn push_try_pop_1() {
    let mut q: Queue<i64> = Queue::new();
    assert!(q.is_empty());
    q.push(37);
    assert!(!q.is_empty());
    assert_eq!(q.try_pop(), Some(37));
    assert!(q.is_empty());
}

#[test]
fn push_try_pop_2() {
    let mut q: Queue<i64> = Queue::new();
    assert!(q.is_empty());
    q.push(37);
    q.push(48);
    assert_eq!(q.try_pop(), Some(37));
    assert!(!q.is_empty());
    assert_eq!(q.try_pop(), Some(48));
    assert!(q.is_empty());
}

#[test]
fn push_try_pop_many_seq() {
    let mut q: Queue<i64> = Queue::new();
    assert!(q.is_empty());
    for i in 0..200 {
        q.push(i)
    }
    assert!(!q.is_empty());
    for i in 0..200 {
        assert_eq!(q.try_pop(), Some(i));
    }
    assert!(q.is_empty());
}

#[test]
fn push_pop_1() {
    let mut q: Queue<i64> = Queue::new();
    assert!(q.is_empty());
    q.push(37);
    assert!(!q.is_empty());
    assert_eq!(pop(&mut q), 37);
    assert!(q.is_empty());
}

#[test]
fn push_pop_2() {
    let mut q: Queue<i64> = Queue::new();
    q.push(37);
    q.push(48);
    assert_eq!(pop(&mut q), 37);
    assert_eq!(pop(&mut q), 48);
}

#[test]
fn push_pop_many_seq() {
    let mut q: Queue<i64> = Queue::new();
    assert!(q.is_empty());
    for i in 0..200 {
        q.push(i)
    }
    assert!(!q.is_empty());
    for i in 0..200 {
        assert_eq!(pop(&mut q), i);
    }
    assert!(q.is_empty());
}

#[test]
fn is_empty_dont_pop() {
    let mut q: Queue<i64> = Queue::new();
    q.push(20);
    q.push(20);
    assert!(!q.is_empty());
    assert!(q.try_pop().is_some());
}

#[test]
fn queue_try_pop_empty_is_none() {
    let mut q: Queue<i64> = Queue::default();
    assert_eq!(q.try_pop(), None);
    q.push(1);
    assert_eq!(q.try_pop(), Some(1));
    assert_eq!(q.try_pop(), None);
}

#[test]
fn stack_is_last_in_first_out() {
    let mut s: Stack<i64> = Stack::new();
    assert!(s.is_empty());
    assert_eq!(s.pop(), None);
    for i in 0..100 {
        s.push(i);
    }
    assert!(!s.is_empty());
    for i in (0..100).rev() {
        assert_eq!(s.pop(), Some(i));
    }
    assert!(s.is_empty());
    assert_eq!(s.pop(), None);
}
