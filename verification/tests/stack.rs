use linked_collections::error::CollectionError;
use linked_collections::stack::Stack;

#[test]
fn stack_starts_empty() {
    let stack: Stack<i32> = Stack::new();
    assert_eq!(*stack.size(), 0);
}

#[test]
fn stack_get_on_empty_fails() {
    let mut stack: Stack<i32> = Stack::new();
    assert_eq!(stack.get(), Err(CollectionError::EmptyCollection));
    assert_eq!(*stack.size(), 0);
}

#[test]
fn stack_top_on_empty_fails() {
    let stack: Stack<i32> = Stack::new();
    assert_eq!(stack.top(), Err(CollectionError::EmptyCollection));
}

#[test]
fn stack_hands_back_in_reverse() {
    let mut stack = Stack::new();
    for value in 1..=5 {
        stack.push(value);
    }
    assert_eq!(*stack.size(), 5);
    let mut got = Vec::new();
    for _ in 0..5 {
        got.push(stack.get());
    }
    assert_eq!(got, vec![Ok(5), Ok(4), Ok(3), Ok(2), Ok(1)]);
    assert_eq!(*stack.size(), 0);
    assert_eq!(stack.get(), Err(CollectionError::EmptyCollection));
}

#[test]
fn stack_top_keeps_the_value() {
    let mut stack = Stack::new();
    stack.push(String::from("a"));
    stack.push(String::from("b"));
    assert_eq!(stack.top(), Ok(String::from("b")));
    assert_eq!(stack.top(), Ok(String::from("b")));
    assert_eq!(*stack.size(), 2);
    assert_eq!(stack.get(), Ok(String::from("b")));
    assert_eq!(stack.top(), Ok(String::from("a")));
    assert_eq!(*stack.size(), 1);
}

#[test]
fn stack_mixes_pushes_and_gets() {
    let mut stack = Stack::new();
    stack.push(1);
    stack.push(2);
    assert_eq!(stack.get(), Ok(2));
    stack.push(3);
    stack.push(4);
    assert_eq!(stack.get(), Ok(4));
    assert_eq!(stack.get(), Ok(3));
    stack.push(5);
    assert_eq!(*stack.size(), 2);
    assert_eq!(stack.get(), Ok(5));
    assert_eq!(stack.get(), Ok(1));
    assert_eq!(stack.get(), Err(CollectionError::EmptyCollection));
}

#[test]
fn stack_holds_many_values() {
    let mut stack = Stack::new();
    for value in 0..1000usize {
        stack.push(value);
        assert_eq!(*stack.size(), value + 1);
    }
    for value in (0..1000usize).rev() {
        assert_eq!(stack.top(), Ok(value));
        assert_eq!(stack.get(), Ok(value));
    }
    assert_eq!(*stack.size(), 0);
}
