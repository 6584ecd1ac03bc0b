use algorithms::linked_list::LinkedList;

#[test]
fn test_empty() {
    let list = LinkedList::<f64>::new();
    assert_eq!(list.peek().is_none(), true);
}

#[test]
fn lib_test_push_pop() {
    let mut list = LinkedList::new();
    list.push(1);
    list.push(2);
    list.push(3);
    assert_eq!(list.pop(), Some(3));
    assert_eq!(list.pop(), Some(2));
    assert_eq!(list.pop(), Some(1));
    assert_eq!(list.pop(), None);
}

#[test]
fn test_peek() {
    let mut list = LinkedList::new();
    list.push(1);
    assert_eq!(list.peek(), Some(&1));
    list.pop();
    assert_eq!(list.peek(), None);
}

#[test]
fn test_peek_mut() {
    let mut list = LinkedList::new();
    list.push(1);
    list.peek_mut().map(|value| {
        *value = 2;
    });

    assert_eq!(list.peek(), Some(&2));
    list.pop();
    assert_eq!(list.peek(), None);
}

#[test]
fn test_into_iter() {
    let mut list = LinkedList::new();
    list.push(1);
    list.push(2);

    assert_eq!(list.next(), Some(2));
    assert_eq!(list.next(), Some(1));
    assert_eq!(list.next(), None);
}

#[test]
fn test_iter() {
    let mut list = LinkedList::new();
    list.push(1);
    list.push(2);

    let mut list_it = list.iter();
    assert_eq!(list_it.next(), Some(&2));
    assert_eq!(list_it.next(), Some(&1));
    assert_eq!(list_it.next(), None);
}
