//! A singly-owned, forward-only stack.
//!
//! Each node owns its successor outright, so the chain is a straight line
//! of single ownership: push and pop work on the head alone, and the
//! contents are modelled as a sequence with the top of the stack first.

use vstd::prelude::*;

verus! {

type Link<T> = Option<Box<Node<T>>>;

struct Node<T> {
    elem: T,
    next: Link<T>,
}

/// The elements reachable from `link`, nearest first.
spec fn link_seq<T>(link: Link<T>) -> Seq<T>
    decreases link,
{
    match link {
        None => Seq::empty(),
        Some(node) => seq![node.elem] + link_seq(node.next),
    }
}

/// A stack: push, pop and peek all act on the same end, the top.
pub struct List<T> {
    head: Link<T>,
}

impl<T> View for List<T> {
    type V = Seq<T>;

    closed spec fn view(&self) -> Seq<T> {
        link_seq(self.head)
    }
}

impl<T> List<T> {
    /// An empty stack.
    pub fn new() -> (list: Self)
        ensures
            list@ == Seq::<T>::empty(),
    {
        List { head: None }
    }

    /// Put `elem` on top of the stack.
    pub fn push(&mut self, elem: T)
        ensures
            final(self)@ == seq![elem] + old(self)@,
    {
        let new_node = Box::new(Node { elem, next: self.head.take() });
        self.head = Some(new_node);
    }

    /// Take the top element off the stack; absent when the stack is empty,
    /// which leaves it unchanged.
    pub fn pop(&mut self) -> (r: Option<T>)
        ensures
            old(self)@.len() == 0 ==> r is None && *final(self) == *old(self),
            old(self)@.len() > 0 ==> r == Some(old(self)@[0]) && final(self)@ == old(self)@.drop_first(),
    {
        match self.head.take() {
            None => None,
            Some(node) => {
                let inner = *node;
                self.head = inner.next;
                proof {
                    assert(old(self)@.drop_first() =~= self@);
                }
                Some(inner.elem)
            },
        }
    }

    /// A read-only borrow of the top element, absent when the stack is
    /// empty.
    pub fn peek(&self) -> (r: Option<&T>)
        ensures
            self@.len() == 0 ==> r is None,
            self@.len() > 0 ==> (r matches Some(e) && *e == self@[0]),
    {
        if let Some(head) = &self.head {
            return Some(&head.elem);
        }
        None
    }

    /// An exclusive borrow of the top element, absent when the stack is
    /// empty; whatever is written through it is the top once the borrow
    /// ends.
    pub fn peek_mut(&mut self) -> (r: Option<&mut T>)
        ensures
            old(self)@.len() == 0 ==> r is None && *final(self) == *old(self),
            old(self)@.len() > 0 ==> r is Some && *r.unwrap() == old(self)@[0] && final(self)@
                == old(self)@.update(0, *final(r.unwrap())),
    {
        if let Some(head) = &mut self.head {
            let relem = &mut head.elem;
            proof {
                assert(after_borrow(*self)@ =~= old(self)@.update(0, *final(relem)));
            }
            return Some(relem);
        }
        None
    }
}

impl<T> Drop for List<T> {
    /// Unlink the nodes one at a time from the top, so that releasing a
    /// long stack never recurses down the chain.
    fn drop(&mut self)
        opens_invariants none
        no_unwind
    {
        let mut link = None;
        core::mem::swap(&mut link, &mut self.head);
        loop
            decreases link_seq(link).len(),
        {
            match link {
                Some(node) => {
                    let mut inner = *node;
                    let mut rest = None;
                    core::mem::swap(&mut rest, &mut inner.next);
                    link = rest;
                },
                None => {
                    break ;
                },
            }
        }
    }
}

/// A draining traversal: it owns the stack and hands the elements out from
/// the top down.
pub struct IntoIter<T>(List<T>);

impl<T> View for IntoIter<T> {
    type V = Seq<T>;

    closed spec fn view(&self) -> Seq<T> {
        self.0@
    }
}

impl<T> List<T> {
    /// Turn the stack into a draining traversal over its elements.
    pub fn into_iter(self) -> (it: IntoIter<T>)
        ensures
            it@ == self@,
    {
        IntoIter(self)
    }
}

impl<T> IntoIter<T> {
    /// The next element from the top down, absent once all are handed out.
    pub fn next(&mut self) -> (r: Option<T>)
        ensures
            old(self)@.len() == 0 ==> r is None && *final(self) == *old(self),
            old(self)@.len() > 0 ==> r == Some(old(self)@[0]) && final(self)@ == old(self)@.drop_first(),
    {
        self.0.pop()
    }
}

/// The elements reachable from `link`, nearest first.
spec fn ref_link_seq<T>(link: Option<&Node<T>>) -> Seq<T> {
    match link {
        None => Seq::empty(),
        Some(node) => seq![node.elem] + link_seq(node.next),
    }
}

/// A read-only traversal: it borrows the stack and hands out a borrow of
/// each element from the top down.
pub struct Iter<'a, T> {
    next: Option<&'a Node<T>>,
}

impl<'a, T> View for Iter<'a, T> {
    type V = Seq<T>;

    closed spec fn view(&self) -> Seq<T> {
        ref_link_seq(self.next)
    }
}

impl<T> List<T> {
    /// A read-only traversal over the elements, from the top down.
    pub fn iter(&self) -> (it: Iter<'_, T>)
        ensures
            it@ == self@,
    {
        Iter {
            next: match &self.head {
                Some(node) => Some(&**node),
                None => None,
            },
        }
    }
}

impl<'a, T> Iter<'a, T> {
    /// A borrow of the next element from the top down, absent once all
    /// have been visited.
    pub fn next(&mut self) -> (r: Option<&'a T>)
        ensures
            old(self)@.len() == 0 ==> r is None && *final(self) == *old(self),
            old(self)@.len() > 0 ==> (r matches Some(e) && *e == old(self)@[0] && final(self)@
                == old(self)@.drop_first()),
    {
        match self.next {
            Some(node) => {
                self.next = match &node.next {
                    Some(next_node) => Some(&**next_node),
                    None => None,
                };
                proof {
                    assert(final(self)@ =~= old(self)@.drop_first());
                }
                Some(&node.elem)
            },
            None => None,
        }
    }
}

/// A mutating traversal: it borrows the stack exclusively and hands out an
/// exclusive borrow of each element from the top down.  Writes through the
/// borrows land in the stack once the traversal's borrow of it ends.
pub struct MutIter<'a, T> {
    next: Option<&'a mut Node<T>>,
}

impl<'a, T> View for MutIter<'a, T> {
    type V = Seq<T>;

    closed spec fn view(&self) -> Seq<T> {
        match self.next {
            None => Seq::empty(),
            Some(node) => seq![node.elem] + link_seq(node.next),
        }
    }
}

impl<T> List<T> {
    /// A mutating traversal over the elements, from the top down.
    pub fn mut_iter(&mut self) -> (it: MutIter<'_, T>)
        ensures
            it@ == old(self)@,
    {
        MutIter {
            next: match &mut self.head {
                Some(node) => Some(&mut **node),
                None => None,
            },
        }
    }
}

impl<'a, T> MutIter<'a, T> {
    /// An exclusive borrow of the next element from the top down, absent
    /// once all have been visited.
    pub fn next(&mut self) -> (r: Option<&'a mut T>)
        ensures
            old(self)@.len() == 0 ==> r is None && *final(self) == *old(self),
            old(self)@.len() > 0 ==> r is Some && *r.unwrap() == old(self)@[0] && final(self)@
                == old(self)@.drop_first(),
    {
        match self.next.take() {
            Some(node) => {
                let Node { elem, next } = node;
                self.next = match next {
                    Some(next_node) => Some(&mut **next_node),
                    None => None,
                };
                proof {
                    assert(final(self)@ =~= old(self)@.drop_first());
                }
                Some(elem)
            },
            None => None,
        }
    }
}

} // verus!
