use algorithms::stack::Stack;

#[test]
fn data_test_push_pop() {
    let mut stack = Stack::new();
    stack.push(0);
    stack.push(123);
    stack.push(456);
    assert_eq!(stack.pop(), Some(&456));
    assert_eq!(stack.pop(), Some(&123));
    assert_eq!(stack.pop(), Some(&0));
    assert_eq!(stack.pop(), None);

    let mut stack = Stack::new();
    stack.push("0".to_string());
    stack.push("123".to_string());
    stack.push("456".to_string());
    assert_eq!(stack.pop(), Some(&"456".to_string()));
    assert_eq!(stack.pop(), Some(&"123".to_string()));
    assert_eq!(stack.pop(), Some(&"0".to_string()));
    assert_eq!(stack.pop(), None);
}

#[test]
fn test_peek_size_is_empty() {
    let mut stack = Stack::new();
    assert_eq!(stack.is_empty(), true);
    assert_eq!(stack.peek(), None);
    assert_eq!(stack.size(), 0);

    stack.push(42);
    assert_eq!(stack.is_empty(), false);
    assert_eq!(stack.peek(), Some(&42));
    assert_eq!(stack.size(), 1);

    stack.push(-999);
    assert_eq!(stack.is_empty(), false);
    assert_eq!(stack.peek(), Some(&-999));
    assert_eq!(stack.size(), 2);

    stack.pop();
    stack.pop();

    assert_eq!(stack.is_empty(), true);
    assert_eq!(stack.peek(), None);
    assert_eq!(stack.size(), 0);
}

#[test]
fn push_overwrites_vacated_slot() {
    let mut stack = Stack::new();
    stack.push(1);
    stack.push(2);
    assert_eq!(stack.pop(), Some(&2));
    stack.push(3);
    assert_eq!(stack.peek(), Some(&3));
    assert_eq!(stack.size(), 2);
}
