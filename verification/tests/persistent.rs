use linked_lists::persistent::List;

#[test]
fn create() {
    let list = List::new();
    let list1 = list.prepend(1);
    let list2 = list1.prepend(2);

    assert_eq!(list.head(), None);
    assert_eq!(list1.head(), Some(&1));
    assert_eq!(list2.head(), Some(&2));
}

#[test]
fn third_iter() {
    let list = List::new().prepend(1).prepend(2).prepend(3);
    let mut iter = list.iter();

    assert_eq!(iter.next(), Some(&3));
    assert_eq!(iter.next(), Some(&2));
    assert_eq!(iter.next(), Some(&1));
    assert_eq!(iter.next(), None);
    assert_ne!(iter.next(), Some(&1));
}

#[test]
fn tail_shares_structure() {
    let list = List::new().prepend(1).prepend(2).prepend(3);
    let rest = list.tail();

    assert_eq!(list.head(), Some(&3));
    assert_eq!(rest.head(), Some(&2));

    let empty = List::<i32>::new().tail();
    assert_eq!(empty.head(), None);
    assert_eq!(empty.tail().head(), None);
}
