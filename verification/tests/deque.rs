use linked_lists::deque::List;

#[test]
fn basic() {
    let mut list = List::new();

    assert_eq!(list.pop_front(), None);

    list.push_front(1);
    list.push_front(2);
    list.push_front(3);

    assert_eq!(list.pop_front(), Some(3));
    assert_eq!(list.pop_front(), Some(2));

    list.push_front(4);

    assert_eq!(list.pop_front(), Some(4));
    assert_eq!(list.pop_front(), Some(1));

    assert_eq!(list.pop_front(), None);
}

#[test]
fn peek_front_test() {
    let mut list = List::new();
    assert!(list.peek_front().is_none());

    list.push_front(1);
    list.push_front(2);
    list.push_front(3);

    assert_eq!(*list.peek_front().unwrap(), 3);

    assert_eq!(list.pop_front(), Some(3));
    assert_eq!(*list.peek_front().unwrap(), 2);
}

#[test]
fn push_back() {
    let mut list = List::new();
    assert!(list.peek_front().is_none());

    list.push_front(1);
    list.push_front(2);
    list.push_back(3);

    assert_eq!(*list.peek_front().unwrap(), 2);

    assert_eq!(list.pop_front(), Some(2));
    assert_eq!(list.pop_front(), Some(1));
    assert_eq!(list.pop_front(), Some(3));
    assert_eq!(list.pop_front(), None);
}

#[test]
fn pop_back() {
    let mut list = List::new();
    assert!(list.peek_front().is_none());

    list.push_front(1);
    list.push_front(2);
    list.push_back(3);

    assert_eq!(list.pop_front(), Some(2));
    assert_eq!(list.pop_back(), Some(3));
    assert_eq!(list.pop_front(), Some(1));

    assert_eq!(list.pop_front(), None);
}

#[test]
fn pop_empty_both_ends() {
    let mut list: List<i32> = List::new();
    assert_eq!(list.pop_front(), None);
    assert_eq!(list.pop_back(), None);
    assert_eq!(list.pop_front(), None);
    assert!(list.peek_front().is_none());
    assert!(list.peek_back().is_none());
}

#[test]
fn single_element_transitions() {
    let mut list = List::new();
    list.push_front(7);
    assert_eq!(list.pop_back(), Some(7));
    assert_eq!(list.pop_front(), None);
    assert_eq!(list.pop_back(), None);

    list.push_back(8);
    assert_eq!(list.pop_front(), Some(8));
    assert_eq!(list.pop_back(), None);

    list.push_front(9);
    list.push_back(10);
    assert_eq!(*list.peek_front().unwrap(), 9);
    assert_eq!(*list.peek_back().unwrap(), 10);
}

#[test]
fn peek_front_mut_writes_through() {
    let mut list = List::new();
    list.push_front(1);
    list.push_front(2);

    if let Some(front) = list.peek_front_mut() {
        *front = 42;
    }
    assert_eq!(*list.peek_front().unwrap(), 42);

    if let Some(back) = list.peek_back_mut() {
        *back = -5;
    }
    assert_eq!(*list.peek_back().unwrap(), -5);

    assert_eq!(list.pop_front(), Some(42));
    assert_eq!(list.pop_front(), Some(-5));
    assert_eq!(list.pop_front(), None);
}

#[test]
fn peek_mut_empty_is_none() {
    let mut list: List<u8> = List::new();
    assert!(list.peek_front_mut().is_none());
    assert!(list.peek_back_mut().is_none());
}

#[test]
fn interleaved_ends() {
    let mut list = List::new();
    list.push_front(1);
    list.push_front(2);
    list.push_back(3);
    assert_eq!(list.pop_front(), Some(2));
    assert_eq!(list.pop_back(), Some(3));
    assert_eq!(list.pop_front(), Some(1));
    assert_eq!(list.pop_front(), None);
}

#[test]
fn both_directions_agree() {
    let mut forward = List::new();
    let mut backward = List::new();
    for v in [4, 8, 15, 16, 23, 42] {
        forward.push_back(v);
        backward.push_back(v);
    }

    let mut front_to_back = Vec::new();
    while let Some(v) = forward.pop_front() {
        front_to_back.push(v);
    }
    let mut back_to_front = Vec::new();
    while let Some(v) = backward.pop_back() {
        back_to_front.push(v);
    }
    back_to_front.reverse();

    assert_eq!(front_to_back, back_to_front);
    assert_eq!(front_to_back, vec![4, 8, 15, 16, 23, 42]);
}

#[test]
fn front_pushes_pop_in_reverse() {
    let mut list = List::new();
    for i in 0..16 {
        list.push_front(i);
    }
    for i in (0..16).rev() {
        assert_eq!(list.pop_front(), Some(i));
    }
    assert_eq!(list.pop_front(), None);
}

#[test]
fn back_pushes_pop_in_order() {
    let mut list = List::new();
    for i in 0..16 {
        list.push_back(i);
    }
    for i in 0..16 {
        assert_eq!(list.pop_front(), Some(i));
    }
    assert_eq!(list.pop_front(), None);
}
