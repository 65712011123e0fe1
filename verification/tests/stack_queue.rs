use rand::Rng;
use sled::{Queue, Stack};

#[test]
fn stack_pops_in_reverse_push_order() {
    let mut s: Stack<u64> = Stack::new();
    s.push(1);
    s.push(2);
    s.push(3);
    assert_eq!(s.pop(), 3);
    assert_eq!(s.try_pop(), Some(2));
    s.push(4);
    assert_eq!(s.pop(), 4);
    assert_eq!(s.pop(), 1);
    assert_eq!(s.try_pop(), None);
    assert!(s.is_empty());
}

#[test]
fn stack_try_pop_on_empty_changes_nothing() {
    let mut s: Stack<u64> = Stack::default();
    assert_eq!(s.try_pop(), None);
    assert_eq!(s.len(), 0);
    assert!(s.is_empty());
}

#[test]
fn stack_counter_moves_on_pops_only() {
    let mut s: Stack<&str> = Stack::new();
    assert_eq!(s.len(), 0);
    s.push("a");
    s.push("b");
    assert_eq!(s.len(), 0);
    assert_eq!(s.try_pop(), Some("b"));
    assert_eq!(s.len(), usize::MAX);
    assert_eq!(s.pop(), "a");
    assert_eq!(s.len(), usize::MAX - 1);
    assert_eq!(s.try_pop(), None);
    assert_eq!(s.len(), usize::MAX - 1);
}

#[test]
fn stack_returns_every_pushed_random_value_once() {
    let mut rng = rand::rng();
    let mut s = Stack::new();
    let mut pushed = Vec::new();
    for _ in 0..10_000 {
        let value: u64 = rng.random();
        s.push(value);
        pushed.push(value);
    }
    let mut popped = Vec::new();
    while let Some(v) = s.try_pop() {
        popped.push(v);
    }
    pushed.reverse();
    assert_eq!(popped, pushed);
}

#[test]
fn queue_pops_in_push_order() {
    let mut q: Queue<u64> = Queue::new();
    q.push(1);
    q.push(2);
    assert_eq!(q.try_pop(), Some(1));
    q.push(3);
    assert_eq!(q.try_pop(), Some(2));
    assert_eq!(q.try_pop(), Some(3));
    assert_eq!(q.try_pop(), None);
}

#[test]
fn queue_try_pop_on_empty_is_none() {
    let mut q: Queue<String> = Queue::default();
    assert_eq!(q.try_pop(), None);
    q.push("x".to_string());
    assert_eq!(q.try_pop(), Some("x".to_string()));
    assert_eq!(q.try_pop(), None);
}

#[test]
fn queue_returns_every_pushed_random_value_once() {
    let mut rng = rand::rng();
    let mut q = Queue::new();
    let mut pushed = Vec::new();
    for _ in 0..10_000 {
        let value: u64 = rng.random();
        q.push(value);
        pushed.push(value);
    }
    let mut popped = Vec::new();
    while let Some(v) = q.try_pop() {
        popped.push(v);
    }
    assert_eq!(popped, pushed);
}
