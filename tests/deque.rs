use linked_lists::fourth::List;

#[test]
fn fourth_basics() {
    let mut list = List::new();

    assert_eq!(list.pop_front(), None);

    list.push_front(1);
    list.push_front(2);
    list.push_front(3);

    assert_eq!(list.pop_front(), Some(3));
    assert_eq!(list.pop_front(), Some(2));

    list.push_front(4);
    list.push_front(5);

    assert_eq!(list.pop_front(), Some(5));
    assert_eq!(list.pop_front(), Some(4));

    assert_eq!(list.pop_front(), Some(1));
    assert_eq!(list.pop_front(), None);
}

#[test]
fn deque_pops_in_reverse_of_pushes() {
    let mut list = List::new();
    list.push_front(1);
    list.push_front(2);
    list.push_front(3);
    assert_eq!(list.pop_front(), Some(3));
    assert_eq!(list.pop_front(), Some(2));
    assert_eq!(list.pop_front(), Some(1));
    assert_eq!(list.pop_front(), None);
}

#[test]
fn emptied_deque_behaves_as_new() {
    let mut list = List::new();
    list.push_front("a");
    assert_eq!(list.pop_front(), Some("a"));
    assert_eq!(list.pop_front(), None);
    list.push_front("b");
    list.push_front("c");
    assert_eq!(list.pop_front(), Some("c"));
    assert_eq!(list.pop_front(), Some("b"));
    assert_eq!(list.pop_front(), None);
}

#[test]
fn interleaved_pushes_and_pops() {
    let mut list = List::new();
    let mut model: Vec<u32> = Vec::new();
    for round in 0..50u32 {
        for v in 0..(round % 7) {
            list.push_front(round * 10 + v);
            model.insert(0, round * 10 + v);
        }
        for _ in 0..(round % 5) {
            let expected = if model.is_empty() { None } else { Some(model.remove(0)) };
            assert_eq!(list.pop_front(), expected);
        }
    }
    while let Some(v) = list.pop_front() {
        assert_eq!(Some(v), if model.is_empty() { None } else { Some(model.remove(0)) });
    }
    assert!(model.is_empty());
}

#[test]
fn long_deque_drops() {
    let mut list = List::new();
    for v in 0..100_000u32 {
        list.push_front(v);
    }
    drop(list);
}
