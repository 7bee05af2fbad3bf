//! An immutable, structurally-shared forward list.
//!
//! Prepending builds a new list whose tail is shared with the old one, so
//! any number of lists may own the same nodes; nothing is ever mutated
//! after creation.  The contents are modelled as a sequence, front first.

use std::rc::Rc;
use vstd::prelude::*;

verus! {

/// A shareable link to the rest of a list.
pub type Link<T> = Option<Rc<Node<T>>>;

/// One node: an element and the shared rest of the list.
pub struct Node<T> {
    elem: T,
    next: Link<T>,
}

/// The elements reachable from `link`, nearest first.
spec fn link_seq<T>(link: Link<T>) -> Seq<T>
    decreases link,
{
    match link {
        None => Seq::empty(),
        Some(node) => seq![node.elem] + link_seq(node.next),
    }
}

/// Duplicate a link: the copy designates the same shared nodes.
fn clone_link<T>(link: &Link<T>) -> (r: Link<T>)
    ensures
        r == *link,
{
    match link {
        Some(node) => Some(node.clone()),
        None => None,
    }
}

/// A persistent list: prepending or dropping the first element yields a
/// new list sharing the rest, and the original stays valid unchanged.
pub struct List<T> {
    head: Link<T>,
}

impl<T> View for List<T> {
    type V = Seq<T>;

    closed spec fn view(&self) -> Seq<T> {
        link_seq(self.head)
    }
}

impl<T> List<T> {
    /// An empty list.
    pub fn new() -> (list: Self)
        ensures
            list@ == Seq::<T>::empty(),
    {
        List { head: None }
    }

    /// A new list with `elem` in front of everything in this one; this
    /// list is untouched and the rest of the new one is shared with it.
    pub fn prepend(&self, elem: T) -> (r: Self)
        ensures
            r@ == seq![elem] + self@,
    {
        let new_node = Rc::new(Node { elem, next: clone_link(&self.head) });
        List { head: Some(new_node) }
    }

    /// A new list of everything but the first element, shared with this
    /// one; the empty list's tail is empty again.
    pub fn tail(&self) -> (r: Self)
        ensures
            self@.len() == 0 ==> r@ == Seq::<T>::empty(),
            self@.len() > 0 ==> r@ == self@.drop_first(),
    {
        let r = List {
            head: match &self.head {
                Some(node) => clone_link(&node.next),
                None => None,
            },
        };
        proof {
            if self@.len() > 0 {
                assert(r@ =~= self@.drop_first());
            }
        }
        r
    }

    /// A read-only borrow of the first element, absent when the list is
    /// empty.
    pub fn head(&self) -> (r: Option<&T>)
        ensures
            self@.len() == 0 ==> r is None,
            self@.len() > 0 ==> (r matches Some(e) && *e == self@[0]),
    {
        match &self.head {
            Some(node) => Some(&node.elem),
            None => None,
        }
    }
}

/// The elements reachable from `link`, nearest first.
spec fn ref_link_seq<T>(link: Option<&Node<T>>) -> Seq<T> {
    match link {
        None => Seq::empty(),
        Some(node) => seq![node.elem] + link_seq(node.next),
    }
}

/// A read-only traversal: it borrows the list and hands out a borrow of
/// each element, front first.
pub struct Iter<'a, T> {
    next: Option<&'a Node<T>>,
}

impl<'a, T> View for Iter<'a, T> {
    type V = Seq<T>;

    closed spec fn view(&self) -> Seq<T> {
        ref_link_seq(self.next)
    }
}

impl<T> List<T> {
    /// A read-only traversal over the elements, front first.
    pub fn iter(&self) -> (it: Iter<'_, T>)
        ensures
            it@ == self@,
    {
        Iter {
            next: match &self.head {
                Some(node) => Some(&**node),
                None => None,
            },
        }
    }
}

impl<'a, T> Iter<'a, T> {
    /// A borrow of the next element, absent once all have been visited.
    pub fn next(&mut self) -> (r: Option<&'a T>)
        ensures
            old(self)@.len() == 0 ==> r is None && *final(self) == *old(self),
            old(self)@.len() > 0 ==> (r matches Some(e) && *e == old(self)@[0] && final(self)@
                == old(self)@.drop_first()),
    {
        match self.next {
            Some(node) => {
                self.next = match &node.next {
                    Some(next_node) => Some(&**next_node),
                    None => None,
                };
                proof {
                    assert(final(self)@ =~= old(self)@.drop_first());
                }
                Some(&node.elem)
            },
            None => None,
        }
    }
}

} // verus!
