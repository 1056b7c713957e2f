use linked_lists::third::List;

#[test]
fn third_basics() {
    let list = List::new();
    assert_eq!(list.head(), None);

    let list = list.prepend(1).prepend(2).prepend(3);
    assert_eq!(list.head(), Some(&3));

    let list = list.tail();
    assert_eq!(list.head(), Some(&2));

    let list = list.tail();
    assert_eq!(list.head(), Some(&1));

    let list = list.tail();
    assert_eq!(list.head(), None);

    let list = list.tail();
    assert_eq!(list.head(), None);
}

#[test]
fn prepend_leaves_base_unchanged() {
    let base = List::new().prepend(1);
    let l1 = base.prepend(7);
    assert_eq!(l1.head(), Some(&7));
    assert_eq!(l1.tail().head(), base.head());
    let l2 = l1.prepend(8);
    assert_eq!(l2.head(), Some(&8));
    drop(l2);
    assert_eq!(l1.head(), Some(&7));
    assert_eq!(l1.tail().head(), Some(&1));
}

#[test]
fn iter_walks_first_to_last() {
    let list = List::new().prepend(1).prepend(2).prepend(3);
    let mut it = list.into_iter();
    assert_eq!(it.next(), Some(&3));
    assert_eq!(it.next(), Some(&2));
    assert_eq!(it.next(), Some(&1));
    assert_eq!(it.next(), None);
}

#[test]
fn shared_suffix_survives_drop() {
    let mut common = List::new();
    for v in 0..100_000 {
        common = common.prepend(v);
    }
    let a = common.prepend(-1);
    let b = common.prepend(-2);
    drop(common);
    drop(a);
    let mut it = b.into_iter();
    assert_eq!(it.next(), Some(&-2));
    let mut count: usize = 0;
    let mut expected = 99_999;
    while let Some(v) = it.next() {
        assert_eq!(*v, expected);
        expected -= 1;
        count += 1;
    }
    assert_eq!(count, 100_000);
}

#[test]
fn long_list_drops() {
    let mut list = List::new();
    for v in 0..100_000 {
        list = list.prepend(v);
    }
    drop(list);
}
