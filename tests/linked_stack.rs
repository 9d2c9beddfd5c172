use tdd_kata::linked_stack::Stack;

#[test]
fn pop_from_empty_stack() {
    let mut stack: Stack<i32> = Stack::default();

    assert_eq!(stack.pop(), None);
}

#[test]
fn pop_push_single_item() {
    let mut stack = Stack::default();

    stack.push(1);

    assert_eq!(stack.pop(), Some(1));
    assert_eq!(stack.pop(), None);
}

#[test]
fn pop_push_many_items() {
    let mut stack = Stack::default();

    stack.push(1);
    stack.push(2);
    stack.push(3);

    assert_eq!(stack.pop(), Some(3));
    assert_eq!(stack.pop(), Some(2));
    assert_eq!(stack.pop(), Some(1));
    assert_eq!(stack.pop(), None);
}

#[test]
fn iterator() {
    let stack = Stack::from_iter((1..=3).collect());

    let mut iter = stack.into_iter();

    assert_eq!(iter.next(), Some(3));
    assert_eq!(iter.next(), Some(2));
    assert_eq!(iter.next(), Some(1));
    assert_eq!(iter.next(), None);
}

#[test]
fn ref_iterator() {
    let stack = Stack::from_iter((1..=3).collect());

    let mut iter = stack.iter();

    assert_eq!(iter.next(), Some(&3));
    assert_eq!(iter.next(), Some(&2));
    assert_eq!(iter.next(), Some(&1));
    assert_eq!(iter.next(), None);
}

#[test]
fn ref_mut_iterator() {
    let mut stack = Stack::from_iter((1..=3).collect());

    let mut iter = stack.iter_mut();

    assert_eq!(iter.next(), Some(&mut 3));
    assert_eq!(iter.next(), Some(&mut 2));
    assert_eq!(iter.next(), Some(&mut 1));
    assert_eq!(iter.next(), None);
}

#[test]
fn ref_mut_iterator_changes_items() {
    let mut stack = Stack::from_iter(vec![1, 2, 3]);
    let mut iter = stack.iter_mut();
    while let Some(item) = iter.next() {
        *item *= 10;
    }
    assert_eq!(stack.pop(), Some(30));
    assert_eq!(stack.pop(), Some(20));
    assert_eq!(stack.pop(), Some(10));
    assert_eq!(stack.pop(), None);
}

#[test]
fn creates_an_empty_stack() {
    let mut stack: Stack<i32> = Stack::new();
    assert_eq!(stack.pop(), None);
}

#[test]
fn adds_an_element_to_a_stack() {
    let mut stack = Stack::new();

    stack.push(1);

    assert_eq!(stack.pop(), Some(1));
    assert_eq!(stack.pop(), None);
}

#[test]
fn adds_elements_to_a_stack() {
    let mut stack = Stack::new();

    stack.push(10);
    stack.push(20);
    stack.push(30);

    assert_eq!(stack.pop(), Some(30));
    assert_eq!(stack.pop(), Some(20));
    assert_eq!(stack.pop(), Some(10));
    assert_eq!(stack.pop(), None);
}

#[test]
fn ref_mut_iterator_stays_empty() {
    let mut stack: Stack<i32> = Stack::new();
    let mut iter = stack.iter_mut();
    assert_eq!(iter.next(), None);
    assert_eq!(iter.next(), None);
}
