use linked_lists::stack::List;

#[test]
fn basics() {
    let mut list = List::<i32>::new();

    list.push(1);
    list.push(2);
    list.push(3);

    assert_eq!(list.peek(), Some(&3));
    assert_eq!(list.peek_mut(), Some(&mut 3));

    list.peek_mut().map(|v| {
        *v = 90;
    });

    assert_ne!(list.pop(), Some(3));
    assert_eq!(list.pop(), Some(2));

    assert_eq!(list.pop(), Some(1));

    assert_eq!(list.pop(), None);
}

#[test]
fn into_iter() {
    let mut list = List::<i32>::new();

    list.push(1);
    list.push(2);
    list.push(3);

    let mut iter = list.into_iter();

    assert_eq!(iter.next(), Some(3));
    assert_eq!(iter.next(), Some(2));
    assert_eq!(iter.next(), Some(1));
}

#[test]
fn second_iter() {
    let mut list = List::<i32>::new();

    list.push(1);
    list.push(2);
    list.push(3);

    let mut iter = list.iter();

    assert_eq!(iter.next(), Some(&3));
    assert_eq!(iter.next(), Some(&2));
    assert_eq!(iter.next(), Some(&1));
    assert_eq!(iter.next(), None);

    let mut iter = list.iter();

    assert_eq!(iter.next(), Some(&3));
    assert_eq!(iter.next(), Some(&2));
    assert_eq!(iter.next(), Some(&1));
    assert_eq!(iter.next(), None);
}

#[test]
fn mut_iter() {
    let mut list = List::<i32>::new();
    list.push(1);
    list.push(2);
    list.push(3);

    let mut iter = list.mut_iter();

    assert_eq!(iter.next(), Some(&mut 3));
    assert_eq!(iter.next(), Some(&mut 2));
    assert_eq!(iter.next(), Some(&mut 1));
    assert_eq!(iter.next(), None);

    let mut iter = list.mut_iter();
    assert_eq!(iter.next(), Some(&mut 3));
}

#[test]
fn mut_iter_writes_through() {
    let mut list = List::<i32>::new();
    list.push(1);
    list.push(2);
    list.push(3);

    let mut iter = list.mut_iter();
    while let Some(elem) = iter.next() {
        *elem *= 10;
    }

    assert_eq!(list.pop(), Some(30));
    assert_eq!(list.pop(), Some(20));
    assert_eq!(list.pop(), Some(10));
    assert_eq!(list.pop(), None);
}

#[test]
fn stack_empty_behaviour() {
    let mut list = List::<u8>::new();
    assert_eq!(list.pop(), None);
    assert_eq!(list.peek(), None);
    assert_eq!(list.peek_mut(), None);
    assert_eq!(list.iter().next(), None);
    assert_eq!(list.into_iter().next(), None);
}

#[test]
fn peek_mut_writes_through() {
    let mut list = List::new();
    list.push(5);
    list.push(6);
    if let Some(top) = list.peek_mut() {
        *top = 60;
    }
    assert_eq!(list.peek(), Some(&60));
    assert_eq!(list.pop(), Some(60));
    assert_eq!(list.pop(), Some(5));
}
