use std::collections::HashSet;
use tdd_kata::thread_counting::{Counter, ThreadCounter};

#[test]
fn new_counter_is_empty() {
    let counter = Counter::new();
    assert_eq!(counter.threads(), 0);
    assert_eq!(counter.numbers(), HashSet::new());
}

#[test]
fn counts_by_thread() {
    let mut counter = Counter::new();
    counter.count(Some("Thread-1".to_string()), 1);
    counter.count(Some("Thread-2".to_string()), 2);
    counter.count(Some("Thread-1".to_string()), 3);
    counter.count(None, 4);
    assert_eq!(counter.threads(), 3);
    assert_eq!(counter.numbers(), (1..=4).collect::<HashSet<i32>>());
    assert_eq!(counter.thread_numbers("Thread-1"), vec![1, 3].into_iter().collect::<HashSet<i32>>());
    assert_eq!(counter.thread_numbers("Thread-2"), vec![2].into_iter().collect::<HashSet<i32>>());
}

#[test]
fn thread_numbers_take_turns() {
    let tc = ThreadCounter::new(3, 10);
    assert_eq!(tc.numbers_of_thread(1), vec![1, 4, 7, 10]);
    assert_eq!(tc.numbers_of_thread(2), vec![2, 5, 8]);
    assert_eq!(tc.numbers_of_thread(3), vec![3, 6, 9]);
    assert_eq!(ThreadCounter::new(3, 1).numbers_of_thread(2), Vec::<i32>::new());
}

#[test]
fn turn_flags_form_a_ring() {
    let tc = ThreadCounter::new(3, 10);
    assert_eq!(tc.flags_of(1), (0, 1));
    assert_eq!(tc.flags_of(2), (1, 2));
    assert_eq!(tc.flags_of(3), (2, 0));
}

#[test]
fn knows_which_threads_counted() {
    let mut counter = Counter::new();
    assert!(!counter.has_thread("Thread-1"));
    counter.count(Some("Thread-1".to_string()), 1);
    assert!(counter.has_thread("Thread-1"));
    assert!(!counter.has_thread("Thread-2"));
}
