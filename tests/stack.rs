use linked_lists::first::LinkList;
use linked_lists::second::List;

#[test]
fn second_basics() {
    let mut list = List::new();
    list.push(10);
    list.push(20);
    list.push(30);
    list.push(40);

    println!("Printed: {:#?}", list);

    let mut seen = Vec::new();
    let mut it = list.into_iter();
    let mut index: usize = 0;
    while let Some(e) = it.next() {
        index += 1;
        println!("Node: {} -> {:?}", index, e);
        seen.push(e);
    }
    assert_eq!(seen, vec![40, 30, 20, 10]);
}

#[test]
fn link_list_basics() {
    let mut list = LinkList::new();
    assert_eq!(list.pop(), None);

    list.push(1);
    list.push(2);
    list.push(3);
    assert_eq!(list.pop(), Some(3));
    assert_eq!(list.pop(), Some(2));

    list.push(4);
    list.push(5);
    assert_eq!(list.pop(), Some(5));
    assert_eq!(list.pop(), Some(4));

    assert_eq!(list.pop(), Some(1));
    assert_eq!(list.pop(), None);
    assert_eq!(list.pop(), None);
}

#[test]
fn stack_pops_in_reverse_then_none() {
    let mut list = List::new();
    for v in 1..=5 {
        list.push(v);
    }
    for v in (1..=5).rev() {
        assert_eq!(list.pop(), Some(v));
    }
    assert_eq!(list.pop(), None);
    assert_eq!(list.pop(), None);
}

#[test]
fn stack_peek_and_peek_mut() {
    let mut list: List<i32> = List::new();
    assert_eq!(list.peek(), None);
    assert!(list.peek_mut().is_none());
    list.push(1);
    list.push(2);
    assert_eq!(list.peek(), Some(&2));
    if let Some(v) = list.peek_mut() {
        *v = 42;
    }
    assert_eq!(list.peek(), Some(&42));
    assert_eq!(list.pop(), Some(42));
    assert_eq!(list.pop(), Some(1));
}

#[test]
fn stack_iter_borrows_top_first() {
    let mut list = List::new();
    list.push(1);
    list.push(2);
    list.push(3);
    let mut it = list.iter();
    assert_eq!(it.next(), Some(&3));
    assert_eq!(it.next(), Some(&2));
    assert_eq!(it.next(), Some(&1));
    assert_eq!(it.next(), None);
    assert_eq!(list.pop(), Some(3));
}

#[test]
fn stack_long_chain_drops() {
    let mut list = List::new();
    for v in 0..100_000 {
        list.push(v);
    }
    drop(list);
}

#[test]
fn link_list_long_chain_drops() {
    let mut list = LinkList::new();
    for v in 0..100_000 {
        list.push(v);
    }
    drop(list);
}
