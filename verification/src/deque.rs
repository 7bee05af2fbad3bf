//! A doubly-linked deque.
//!
//! Every node is reachable from both of its neighbours and, at the ends,
//! from the deque's own head and tail handles.  To keep that sharing
//! verifiable, the nodes live in an arena owned by the deque itself and the
//! neighbour relations are slot indices, so no two owners ever hold the same
//! allocation and teardown is a single linear release of the arena.
//!
//! The contents are modelled as a sequence, front first; a ghost sequence of
//! slot indices records the chain order, and the well-formedness predicate
//! ties the `next`/`prev` indices of every live node to that order.

use vstd::prelude::*;

verus! {

/// One node of the chain: the stored element and the two neighbour
/// relations, each the slot index of an adjacent node or `None` at an end.
pub struct Node<T> {
    elem: T,
    next: Option<usize>,
    prev: Option<usize>,
}

impl<T> Node<T> {
    /// The node holds `elem` and neither neighbour relation is set.
    pub closed spec fn is_detached_with(&self, elem: T) -> bool {
        &&& self.elem == elem
        &&& self.next is None
        &&& self.prev is None
    }

    /// A detached node: it holds `elem` and has no neighbours yet.
    pub fn new(elem: T) -> (node: Self)
        ensures
            node.is_detached_with(elem),
    {
        Node { elem, next: None, prev: None }
    }
}

/// A deque of elements of type `T`, linked in both directions.
///
/// `nodes` is the arena: a live slot holds `Some` node, a vacated slot holds
/// `None` and its index is kept in `free` for reuse.  `head` and `tail` are
/// the slot indices of the first and last node, absent exactly when the
/// deque is empty.  The ghost `order` lists the live slot indices from head
/// to tail; it is the bridge between the index chain and the sequence model.
pub struct List<T> {
    nodes: Vec<Option<Node<T>>>,
    free: Vec<usize>,
    head: Option<usize>,
    tail: Option<usize>,
    order: Ghost<Seq<usize>>,
}

impl<T> List<T> {
    /// The live node in slot `j`.
    spec fn node_at(&self, j: usize) -> Node<T> {
        self.nodes@[j as int].unwrap()
    }

    /// Position `i` of the chain names a live slot of the arena.
    spec fn slot_live(&self, i: int) -> bool {
        let j = self.order@[i];
        &&& j < self.nodes@.len()
        &&& self.nodes@[j as int] is Some
    }

    /// The node at position `i` points back at its predecessor and forward
    /// at its successor, and at nothing beyond the ends.
    spec fn links_agree(&self, i: int) -> bool {
        let ord = self.order@;
        let node = self.node_at(ord[i]);
        &&& node.prev == (if i == 0 {
            None::<usize>
        } else {
            Some(ord[i - 1])
        })
        &&& node.next == (if i == ord.len() - 1 {
            None::<usize>
        } else {
            Some(ord[i + 1])
        })
    }

    /// The free list holds distinct indices of vacated arena slots.
    spec fn free_ok(&self) -> bool {
        &&& forall|k: int|
            0 <= k < self.free@.len() ==> self.free@[k] < self.nodes@.len()
                && self.nodes@[#[trigger] self.free@[k] as int] is None
        &&& forall|k1: int, k2: int|
            0 <= k1 < k2 < self.free@.len() ==> self.free@[k1] != self.free@[k2]
    }

    /// Well-formedness: the ghost order lists distinct live slots whose
    /// links mirror each other, the end handles agree with it, the free
    /// list holds distinct vacated slots, and every arena slot is accounted
    /// for either by the chain or by the free list.
    pub closed spec fn wf(&self) -> bool {
        let ord = self.order@;
        &&& forall|i: int| 0 <= i < ord.len() ==> self.slot_live(i)
        &&& forall|i: int| 0 <= i < ord.len() ==> self.links_agree(i)
        &&& forall|i1: int, i2: int| 0 <= i1 < i2 < ord.len() ==> ord[i1] != ord[i2]
        &&& if ord.len() == 0 {
            self.head is None && self.tail is None
        } else {
            self.head == Some(ord[0]) && self.tail == Some(ord[ord.len() - 1])
        }
        &&& self.free_ok()
        &&& ord.len() + self.free@.len() == self.nodes@.len()
    }

    /// The contents of the deque, front first.
    pub closed spec fn as_seq(&self) -> Seq<T> {
        Seq::new(self.order@.len(), |i: int| self.node_at(self.order@[i]).elem)
    }

    /// An empty deque.
    pub fn new() -> (list: Self)
        ensures
            list.wf(),
            list@ == Seq::<T>::empty(),
    {
        let list = List {
            nodes: Vec::new(),
            free: Vec::new(),
            head: None,
            tail: None,
            order: Ghost(Seq::empty()),
        };
        proof {
            assert(list@ =~= Seq::<T>::empty());
        }
        list
    }
}

impl<T> List<T> {
    /// Store `node` in a vacant slot, reusing a freed one when there is
    /// any, and return its index.  The chain itself is not touched.
    fn place(&mut self, node: Node<T>) -> (idx: usize)
        requires
            old(self).free_ok(),
        ensures
            final(self).head == old(self).head,
            final(self).tail == old(self).tail,
            final(self).order == old(self).order,
            idx < final(self).nodes@.len(),
            final(self).nodes@.len() >= old(self).nodes@.len(),
            idx < old(self).nodes@.len() ==> old(self).nodes@[idx as int] is None
                && final(self).nodes@ == old(self).nodes@.update(idx as int, Some(node)),
            idx >= old(self).nodes@.len() ==> idx == old(self).nodes@.len()
                && final(self).nodes@ == old(self).nodes@.push(Some(node)),
            final(self).nodes@.len() + old(self).free@.len()
                == old(self).nodes@.len() + final(self).free@.len() + 1,
            final(self).free_ok(),
    {
        match self.free.pop() {
            Some(idx) => {
                self.nodes[idx] = Some(node);
                idx
            },
            None => {
                let idx = self.nodes.len();
                self.nodes.push(Some(node));
                idx
            },
        }
    }

    /// Rewrite the `prev` relation of the live node in slot `j`; nothing
    /// else of the arena, and nothing of the handles, moves.
    fn set_prev(&mut self, j: usize, p: Option<usize>)
        requires
            old(self).free_ok(),
            j < old(self).nodes@.len(),
            old(self).nodes@[j as int] is Some,
        ensures
            final(self).head == old(self).head,
            final(self).tail == old(self).tail,
            final(self).order == old(self).order,
            final(self).free == old(self).free,
            final(self).free_ok(),
            final(self).nodes@.len() == old(self).nodes@.len(),
            final(self).nodes@[j as int] is Some,
            final(self).nodes@[j as int].unwrap().elem == old(self).nodes@[j as int].unwrap().elem,
            final(self).nodes@[j as int].unwrap().next == old(self).nodes@[j as int].unwrap().next,
            final(self).nodes@[j as int].unwrap().prev == p,
            forall|l: int|
                0 <= l < old(self).nodes@.len() && l != j ==> final(self).nodes@[l] == old(self).nodes@[l],
    {
        let mut node = self.nodes[j].take().unwrap();
        node.prev = p;
        self.nodes[j] = Some(node);
    }

    /// Rewrite the `next` relation of the live node in slot `j`; nothing
    /// else of the arena, and nothing of the handles, moves.
    fn set_next(&mut self, j: usize, x: Option<usize>)
        requires
            old(self).free_ok(),
            j < old(self).nodes@.len(),
            old(self).nodes@[j as int] is Some,
        ensures
            final(self).head == old(self).head,
            final(self).tail == old(self).tail,
            final(self).order == old(self).order,
            final(self).free == old(self).free,
            final(self).free_ok(),
            final(self).nodes@.len() == old(self).nodes@.len(),
            final(self).nodes@[j as int] is Some,
            final(self).nodes@[j as int].unwrap().elem == old(self).nodes@[j as int].unwrap().elem,
            final(self).nodes@[j as int].unwrap().prev == old(self).nodes@[j as int].unwrap().prev,
            final(self).nodes@[j as int].unwrap().next == x,
            forall|l: int|
                0 <= l < old(self).nodes@.len() && l != j ==> final(self).nodes@[l] == old(self).nodes@[l],
    {
        let mut node = self.nodes[j].take().unwrap();
        node.next = x;
        self.nodes[j] = Some(node);
    }

    /// Put `elem` in a new node at the front: the node's `next` is the old
    /// head, the old head's `prev` (if any) is the new node, and the head
    /// handle — and, when the deque was empty, the tail handle too — moves
    /// to the new node.
    pub fn push_front(&mut self, elem: T)
        requires
            old(self).wf(),
        ensures
            final(self).wf(),
            final(self)@ == seq![elem] + old(self)@,
    {
        let mut node = Node::new(elem);
        node.next = self.head;
        let old_head = self.head;
        let idx = self.place(node);
        match old_head {
            Some(h) => {
                proof {
                    assert(old(self).order@.len() > 0);
                    assert(old(self).slot_live(0));
                    assert(h == old(self).order@[0]);
                }
                self.set_prev(h, Some(idx));
            },
            None => {
                self.tail = Some(idx);
            },
        }
        self.head = Some(idx);
        proof {
            let pre = *old(self);
            let pord = pre.order@;
            self.order@ = seq![idx] + pord;
            let ord = self.order@;
            assert forall|i: int| 0 <= i < ord.len() implies self.slot_live(i)
                && self.links_agree(i) by {
                if i > 0 {
                    assert(pre.slot_live(i - 1));
                    assert(pre.links_agree(i - 1));
                    if i > 1 {
                        assert(pre.slot_live(i - 2));
                    }
                    if i + 1 < ord.len() {
                        assert(pre.slot_live(i));
                    }
                }
                if pord.len() > 0 {
                    assert(pre.slot_live(0));
                }
            }
            assert forall|i1: int, i2: int| 0 <= i1 < i2 < ord.len() implies ord[i1]
                != ord[i2] by {
                assert(pre.slot_live(i2 - 1));
                if i1 > 0 {
                    assert(pre.slot_live(i1 - 1));
                }
            }
            assert forall|i: int| 0 < i < ord.len() implies self.node_at(ord[i]).elem == pre@[i
                - 1] by {
                assert(pre.slot_live(i - 1));
            }
            assert(self@ =~= seq![elem] + pre@);
        }
    }

    /// Put `elem` in a new node at the back: the node's `prev` is the old
    /// tail, the old tail's `next` (if any) is the new node, and the tail
    /// handle — and, when the deque was empty, the head handle too — moves
    /// to the new node.
    pub fn push_back(&mut self, elem: T)
        requires
            old(self).wf(),
        ensures
            final(self).wf(),
            final(self)@ == old(self)@.push(elem),
    {
        let mut node = Node::new(elem);
        node.prev = self.tail;
        let old_tail = self.tail;
        let idx = self.place(node);
        match old_tail {
            Some(t) => {
                proof {
                    assert(old(self).order@.len() > 0);
                    assert(old(self).slot_live(old(self).order@.len() - 1));
                    assert(t == old(self).order@[old(self).order@.len() - 1]);
                }
                self.set_next(t, Some(idx));
            },
            None => {
                self.head = Some(idx);
            },
        }
        self.tail = Some(idx);
        proof {
            let pre = *old(self);
            let pord = pre.order@;
            let n = pord.len() as int;
            self.order@ = pord.push(idx);
            let ord = self.order@;
            assert forall|i: int| 0 <= i < ord.len() implies self.slot_live(i)
                && self.links_agree(i) by {
                if i < n {
                    assert(pre.slot_live(i));
                    assert(pre.links_agree(i));
                    if i > 0 {
                        assert(pre.slot_live(i - 1));
                    }
                    if i + 1 < n {
                        assert(pre.slot_live(i + 1));
                    }
                }
                if n > 0 {
                    assert(pre.slot_live(n - 1));
                }
            }
            assert forall|i1: int, i2: int| 0 <= i1 < i2 < ord.len() implies ord[i1]
                != ord[i2] by {
                assert(pre.slot_live(i1));
                if i2 < n {
                    assert(pre.slot_live(i2));
                }
            }
            assert forall|i: int| 0 <= i < n implies self.node_at(ord[i]).elem == pre@[i] by {
                assert(pre.slot_live(i));
            }
            assert(self@ =~= pre@.push(elem));
        }
    }

    /// Detach the head node, if any: every relation pointing at it — its
    /// successor's `prev` and the head handle — is cleared first, its slot
    /// is vacated, and its element alone is handed back.  Popping the only
    /// element clears both handles at once; popping from an empty deque
    /// returns absent and changes nothing.
    pub fn pop_front(&mut self) -> (r: Option<T>)
        requires
            old(self).wf(),
        ensures
            final(self).wf(),
            old(self)@.len() == 0 ==> r is None && *final(self) == *old(self),
            old(self)@.len() > 0 ==> r == Some(old(self)@[0]) && final(self)@ == old(self)@.drop_first(),
    {
        match self.head {
            None => None,
            Some(h) => {
                proof {
                    assert(old(self).order@.len() > 0);
                    assert(old(self).slot_live(0));
                    assert(old(self).links_agree(0));
                    assert(h == old(self).order@[0]);
                }
                let node = self.nodes[h].take().unwrap();
                match node.next {
                    Some(nh) => {
                        proof {
                            assert(old(self).slot_live(1));
                            assert(nh == old(self).order@[1]);
                        }
                        self.set_prev(nh, None);
                        self.head = Some(nh);
                    },
                    None => {
                        self.head = None;
                        self.tail = None;
                    },
                }
                self.free.push(h);
                proof {
                    let pre = *old(self);
                    let pord = pre.order@;
                    let n = pord.len() as int;
                    self.order@ = pord.drop_first();
                    let ord = self.order@;
                    assert forall|i: int| 0 <= i < ord.len() implies self.slot_live(i)
                        && self.links_agree(i) by {
                        assert(pre.slot_live(i + 1));
                        assert(pre.links_agree(i + 1));
                        if i > 0 {
                            assert(pre.slot_live(i));
                        }
                        if i + 2 < n {
                            assert(pre.slot_live(i + 2));
                        }
                        assert(pre.slot_live(0));
                    }
                    assert forall|i1: int, i2: int| 0 <= i1 < i2 < ord.len() implies ord[i1]
                        != ord[i2] by {
                        assert(pre.slot_live(i1 + 1));
                        assert(pre.slot_live(i2 + 1));
                    }
                    assert forall|k: int|
                        0 <= k < self.free@.len() implies self.free@[k] < self.nodes@.len()
                            && self.nodes@[#[trigger] self.free@[k] as int] is None by {
                        if k < pre.free@.len() {
                            assert(pre.free@[k] < pre.nodes@.len()
                                && pre.nodes@[pre.free@[k] as int] is None);
                        }
                    }
                    assert forall|k1: int, k2: int|
                        0 <= k1 < k2 < self.free@.len() implies self.free@[k1]
                            != self.free@[k2] by {
                        if k1 < pre.free@.len() {
                            assert(pre.free@[k1] < pre.nodes@.len()
                                && pre.nodes@[pre.free@[k1] as int] is None);
                        }
                    }
                    assert forall|i: int| 0 <= i < ord.len() implies self.node_at(ord[i]).elem
                        == pre@[i + 1] by {
                        assert(pre.slot_live(i + 1));
                    }
                    assert(self@ =~= pre@.drop_first());
                }
                Some(node.elem)
            },
        }
    }

    /// Detach the tail node, if any: every relation pointing at it — its
    /// predecessor's `next` and the tail handle — is cleared first, its
    /// slot is vacated, and its element alone is handed back.  Popping the
    /// only element clears both handles at once; popping from an empty
    /// deque returns absent and changes nothing.
    pub fn pop_back(&mut self) -> (r: Option<T>)
        requires
            old(self).wf(),
        ensures
            final(self).wf(),
            old(self)@.len() == 0 ==> r is None && *final(self) == *old(self),
            old(self)@.len() > 0 ==> r == Some(old(self)@.last()) && final(self)@ == old(self)@.drop_last(),
    {
        match self.tail {
            None => None,
            Some(t) => {
                proof {
                    assert(old(self).order@.len() > 0);
                    assert(old(self).slot_live(old(self).order@.len() - 1));
                    assert(old(self).links_agree(old(self).order@.len() - 1));
                    assert(t == old(self).order@[old(self).order@.len() - 1]);
                }
                let node = self.nodes[t].take().unwrap();
                match node.prev {
                    Some(pt) => {
                        proof {
                            assert(old(self).slot_live(old(self).order@.len() - 2));
                            assert(pt == old(self).order@[old(self).order@.len() - 2]);
                        }
                        self.set_next(pt, None);
                        self.tail = Some(pt);
                    },
                    None => {
                        self.head = None;
                        self.tail = None;
                    },
                }
                self.free.push(t);
                proof {
                    let pre = *old(self);
                    let pord = pre.order@;
                    let n = pord.len() as int;
                    self.order@ = pord.drop_last();
                    let ord = self.order@;
                    assert forall|i: int| 0 <= i < ord.len() implies self.slot_live(i)
                        && self.links_agree(i) by {
                        assert(pre.slot_live(i));
                        assert(pre.links_agree(i));
                        if i > 0 {
                            assert(pre.slot_live(i - 1));
                        }
                        if i + 1 < n {
                            assert(pre.slot_live(i + 1));
                        }
                        assert(pre.slot_live(n - 1));
                    }
                    assert forall|i1: int, i2: int| 0 <= i1 < i2 < ord.len() implies ord[i1]
                        != ord[i2] by {
                        assert(pre.slot_live(i1));
                        assert(pre.slot_live(i2));
                    }
                    assert forall|k: int|
                        0 <= k < self.free@.len() implies self.free@[k] < self.nodes@.len()
                            && self.nodes@[#[trigger] self.free@[k] as int] is None by {
                        if k < pre.free@.len() {
                            assert(pre.free@[k] < pre.nodes@.len()
                                && pre.nodes@[pre.free@[k] as int] is None);
                        }
                    }
                    assert forall|k1: int, k2: int|
                        0 <= k1 < k2 < self.free@.len() implies self.free@[k1]
                            != self.free@[k2] by {
                        if k1 < pre.free@.len() {
                            assert(pre.free@[k1] < pre.nodes@.len()
                                && pre.nodes@[pre.free@[k1] as int] is None);
                        }
                    }
                    assert forall|i: int| 0 <= i < ord.len() implies self.node_at(ord[i]).elem
                        == pre@[i] by {
                        assert(pre.slot_live(i));
                    }
                    assert(self@ =~= pre@.drop_last());
                }
                Some(node.elem)
            },
        }
    }

    /// A scoped read-only borrow of the first element, absent when the
    /// deque is empty.
    pub fn peek_front(&self) -> (r: Option<&T>)
        requires
            self.wf(),
        ensures
            self@.len() == 0 ==> r is None,
            self@.len() > 0 ==> (r matches Some(e) && *e == self@[0]),
    {
        match self.head {
            None => None,
            Some(h) => {
                proof {
                    assert(self.slot_live(0));
                    assert(h == self.order@[0]);
                }
                Some(&self.nodes[h].as_ref().unwrap().elem)
            },
        }
    }

    /// A scoped read-only borrow of the last element, absent when the
    /// deque is empty.
    pub fn peek_back(&self) -> (r: Option<&T>)
        requires
            self.wf(),
        ensures
            self@.len() == 0 ==> r is None,
            self@.len() > 0 ==> (r matches Some(e) && *e == self@.last()),
    {
        match self.tail {
            None => None,
            Some(t) => {
                proof {
                    assert(self.slot_live(self.order@.len() - 1));
                    assert(t == self.order@[self.order@.len() - 1]);
                }
                Some(&self.nodes[t].as_ref().unwrap().elem)
            },
        }
    }

    /// A scoped exclusive borrow of the first element, absent when the
    /// deque is empty.  While the borrow lives no other access to the
    /// deque is possible; whatever is written through it is the first
    /// element once the borrow ends.
    pub fn peek_front_mut(&mut self) -> (r: Option<&mut T>)
        requires
            old(self).wf(),
        ensures
            old(self)@.len() == 0 ==> r is None && *final(self) == *old(self),
            old(self)@.len() > 0 ==> r is Some && *r.unwrap() == old(self)@[0] && final(self).wf()
                && final(self)@ == old(self)@.update(0, *final(r.unwrap())),
    {
        match self.head {
            None => None,
            Some(h) => {
                proof {
                    assert(old(self).slot_live(0));
                    assert(h == old(self).order@[0]);
                }
                match &mut self.nodes[h] {
                    Some(n) => {
                        let relem = &mut n.elem;
                        proof {
                            let pre = *old(self);
                            assert forall|i: int| 0 <= i < after_borrow(*self).order@.len() implies after_borrow(*self).slot_live(i) && after_borrow(*self).links_agree(i) by {
                                assert(pre.slot_live(i));
                                assert(pre.links_agree(i));
                            }
                            assert forall|k: int|
                                0 <= k < after_borrow(*self).free@.len() implies after_borrow(*self).free@[k]
                                    < after_borrow(*self).nodes@.len() && after_borrow(*self).nodes@[#[trigger] after_borrow(*self).free@[k] as int] is None by {
                                assert(pre.free@[k] < pre.nodes@.len() && pre.nodes@[pre.free@[k]
                                    as int] is None);
                            }
                            assert forall|i: int| 0 < i < after_borrow(*self).order@.len() implies after_borrow(*self).node_at(after_borrow(*self).order@[i]).elem == pre@[i] by {
                                assert(pre.slot_live(i));
                            }
                            assert(after_borrow(*self)@ =~= pre@.update(0, *final(relem)));
                        }
                        Some(relem)
                    },
                    None => vstd::pervasive::unreached(),
                }
            },
        }
    }

    /// A scoped exclusive borrow of the last element, absent when the
    /// deque is empty.  While the borrow lives no other access to the
    /// deque is possible; whatever is written through it is the last
    /// element once the borrow ends.
    pub fn peek_back_mut(&mut self) -> (r: Option<&mut T>)
        requires
            old(self).wf(),
        ensures
            old(self)@.len() == 0 ==> r is None && *final(self) == *old(self),
            old(self)@.len() > 0 ==> r is Some && *r.unwrap() == old(self)@.last() && final(self).wf() && final(self)@ == old(self)@.update(old(self)@.len() - 1, *final(r.unwrap())),
    {
        match self.tail {
            None => None,
            Some(t) => {
                proof {
                    assert(old(self).slot_live(old(self).order@.len() - 1));
                    assert(t == old(self).order@[old(self).order@.len() - 1]);
                }
                match &mut self.nodes[t] {
                    Some(n) => {
                        let relem = &mut n.elem;
                        proof {
                            let pre = *old(self);
                            let last = pre.order@.len() - 1;
                            assert forall|i: int| 0 <= i < after_borrow(*self).order@.len() implies after_borrow(*self).slot_live(i) && after_borrow(*self).links_agree(i) by {
                                assert(pre.slot_live(i));
                                assert(pre.links_agree(i));
                            }
                            assert forall|k: int|
                                0 <= k < after_borrow(*self).free@.len() implies after_borrow(*self).free@[k]
                                    < after_borrow(*self).nodes@.len() && after_borrow(*self).nodes@[#[trigger] after_borrow(*self).free@[k] as int] is None by {
                                assert(pre.free@[k] < pre.nodes@.len() && pre.nodes@[pre.free@[k]
                                    as int] is None);
                            }
                            assert forall|i: int| 0 <= i < last implies after_borrow(*self).node_at(
                                after_borrow(*self).order@[i],
                            ).elem == pre@[i] by {
                                assert(pre.slot_live(i));
                            }
                            assert(after_borrow(*self)@ =~= pre@.update(last, *final(relem)));
                        }
                        Some(relem)
                    },
                    None => vstd::pervasive::unreached(),
                }
            },
        }
    }
}

impl<T> View for List<T> {
    type V = Seq<T>;

    open spec fn view(&self) -> Seq<T> {
        self.as_seq()
    }
}

/// The contents of a deque holding `v` after pushing each element of `xs`,
/// in order, at the front, as `push_front` describes one such step.
pub open spec fn pushed_front<T>(v: Seq<T>, xs: Seq<T>) -> Seq<T>
    decreases xs.len(),
{
    if xs.len() == 0 {
        v
    } else {
        pushed_front(seq![xs[0]] + v, xs.drop_first())
    }
}

/// The contents of a deque holding `v` after pushing each element of `xs`,
/// in order, at the back, as `push_back` describes one such step.
pub open spec fn pushed_back<T>(v: Seq<T>, xs: Seq<T>) -> Seq<T>
    decreases xs.len(),
{
    if xs.len() == 0 {
        v
    } else {
        pushed_back(v.push(xs[0]), xs.drop_first())
    }
}

/// Law: a run of `push_front` calls leaves the pushed elements in front of
/// the old contents in reverse push order, so an equal run of `pop_front`
/// calls returns them newest first — the front end is last in, first out.
pub proof fn lemma_front_pushes_reverse<T>(v: Seq<T>, xs: Seq<T>)
    ensures
        pushed_front(v, xs) == xs.reverse() + v,
    decreases xs.len(),
{
    if xs.len() == 0 {
        assert(pushed_front(v, xs) =~= xs.reverse() + v);
    } else {
        lemma_front_pushes_reverse(seq![xs[0]] + v, xs.drop_first());
        assert(pushed_front(v, xs) == xs.drop_first().reverse() + (seq![xs[0]] + v));
        assert(xs.drop_first().reverse() + (seq![xs[0]] + v) =~= xs.reverse() + v);
    }
}

/// Law: a run of `push_back` calls appends the pushed elements behind the
/// old contents in push order, so a run of `pop_front` calls that crosses
/// them returns them oldest first — across the two ends the deque is first
/// in, first out.
pub proof fn lemma_back_pushes_append<T>(v: Seq<T>, xs: Seq<T>)
    ensures
        pushed_back(v, xs) == v + xs,
    decreases xs.len(),
{
    if xs.len() == 0 {
        assert(pushed_back(v, xs) =~= v + xs);
    } else {
        lemma_back_pushes_append(v.push(xs[0]), xs.drop_first());
        assert(pushed_back(v, xs) == v.push(xs[0]) + xs.drop_first());
        assert(v.push(xs[0]) + xs.drop_first() =~= v + xs);
    }
}

impl<T> List<T> {
    /// The head handle designates no node.
    pub closed spec fn head_absent(&self) -> bool {
        self.head is None
    }

    /// The tail handle designates no node.
    pub closed spec fn tail_absent(&self) -> bool {
        self.tail is None
    }

    /// The elements found by following `next` links starting from `link`,
    /// reading at most `fuel` nodes and stopping at anything dangling.
    spec fn walk_forward(&self, link: Option<usize>, fuel: nat) -> Seq<T>
        decreases fuel,
    {
        if fuel == 0 {
            Seq::empty()
        } else {
            match link {
                None => Seq::empty(),
                Some(j) => if j < self.nodes@.len() && self.nodes@[j as int] is Some {
                    seq![self.node_at(j).elem] + self.walk_forward(
                        self.node_at(j).next,
                        (fuel - 1) as nat,
                    )
                } else {
                    Seq::empty()
                },
            }
        }
    }

    /// The elements found by following `prev` links starting from `link`,
    /// reading at most `fuel` nodes and stopping at anything dangling.
    spec fn walk_backward(&self, link: Option<usize>, fuel: nat) -> Seq<T>
        decreases fuel,
    {
        if fuel == 0 {
            Seq::empty()
        } else {
            match link {
                None => Seq::empty(),
                Some(j) => if j < self.nodes@.len() && self.nodes@[j as int] is Some {
                    seq![self.node_at(j).elem] + self.walk_backward(
                        self.node_at(j).prev,
                        (fuel - 1) as nat,
                    )
                } else {
                    Seq::empty()
                },
            }
        }
    }

    /// Everything reached by walking `next` from the head.
    pub closed spec fn forward_elems(&self) -> Seq<T> {
        self.walk_forward(self.head, self.nodes@.len() as nat)
    }

    /// Everything reached by walking `prev` from the tail.
    pub closed spec fn backward_elems(&self) -> Seq<T> {
        self.walk_backward(self.tail, self.nodes@.len() as nat)
    }

    /// Walking forward from position `i` of the chain yields exactly the
    /// contents from `i` on.
    proof fn lemma_walk_forward_from(&self, i: int, fuel: nat)
        requires
            self.wf(),
            0 <= i <= self.order@.len(),
            fuel >= self.order@.len() - i,
        ensures
            self.walk_forward(
                if i == self.order@.len() {
                    None
                } else {
                    Some(self.order@[i])
                },
                fuel,
            ) == self@.subrange(i, self.order@.len() as int),
        decreases self.order@.len() - i,
    {
        let n = self.order@.len() as int;
        if i == n {
            assert(self.walk_forward(None, fuel) =~= self@.subrange(i, n));
        } else {
            assert(self.slot_live(i));
            assert(self.links_agree(i));
            self.lemma_walk_forward_from(i + 1, (fuel - 1) as nat);
            assert(self.walk_forward(Some(self.order@[i]), fuel) =~= self@.subrange(i, n));
        }
    }

    /// Walking backward from position `i` of the chain yields exactly the
    /// contents up to `i`, read right to left.
    proof fn lemma_walk_backward_from(&self, i: int, fuel: nat)
        requires
            self.wf(),
            -1 <= i < self.order@.len(),
            fuel >= i + 1,
        ensures
            self.walk_backward(
                if i < 0 {
                    None
                } else {
                    Some(self.order@[i])
                },
                fuel,
            ) == self@.subrange(0, i + 1).reverse(),
        decreases i + 1,
    {
        if i < 0 {
            assert(self.walk_backward(None, fuel) =~= self@.subrange(0, 0).reverse());
        } else {
            assert(self.slot_live(i));
            assert(self.links_agree(i));
            self.lemma_walk_backward_from(i - 1, (fuel - 1) as nat);
            assert(self.walk_backward(Some(self.order@[i]), fuel) =~= self@.subrange(
                0,
                i + 1,
            ).reverse());
        }
    }

    /// Law: the end handles agree — the head is absent exactly when the
    /// tail is, and exactly when the deque is empty — and walking `next`
    /// from the head visits every element exactly once, in exactly the
    /// reverse of the order in which walking `prev` from the tail visits
    /// them.
    pub proof fn lemma_mirror_traversal(&self)
        requires
            self.wf(),
        ensures
            self.head_absent() <==> self.tail_absent(),
            self.head_absent() <==> self@.len() == 0,
            self.forward_elems() == self@,
            self.backward_elems() == self@.reverse(),
    {
        let n = self.order@.len() as int;
        if n > 0 {
            assert(self.slot_live(0));
        }
        self.lemma_walk_forward_from(0, self.nodes@.len() as nat);
        assert(self@.subrange(0, n) =~= self@);
        self.lemma_walk_backward_from(n - 1, self.nodes@.len() as nat);
    }
}

/// How many arena slots hold a live node.
spec fn count_live<T>(s: Seq<Option<Node<T>>>) -> nat
    decreases s.len(),
{
    if s.len() == 0 {
        0
    } else {
        count_live(s.drop_last()) + (if s.last() is Some {
            1nat
        } else {
            0nat
        })
    }
}

/// No sequence holds more live slots than slots.
proof fn lemma_count_live_le<T>(s: Seq<Option<Node<T>>>)
    ensures
        count_live(s) <= s.len(),
    decreases s.len(),
{
    if s.len() > 0 {
        lemma_count_live_le(s.drop_last());
    }
}

/// Vacating one live slot lowers the live count by exactly one.
proof fn lemma_count_live_vacate<T>(s: Seq<Option<Node<T>>>, j: int)
    requires
        0 <= j < s.len(),
        s[j] is Some,
    ensures
        count_live(s.update(j, None)) + 1 == count_live(s),
    decreases s.len(),
{
    if j == s.len() - 1 {
        assert(s.update(j, None).drop_last() =~= s.drop_last());
    } else {
        assert(s.update(j, None).drop_last() =~= s.drop_last().update(j, None));
        lemma_count_live_vacate(s.drop_last(), j);
    }
}

/// Filling one vacant slot raises the live count by exactly one.
proof fn lemma_count_live_fill<T>(s: Seq<Option<Node<T>>>, j: int, node: Node<T>)
    requires
        0 <= j < s.len(),
        s[j] is None,
    ensures
        count_live(s.update(j, Some(node))) == count_live(s) + 1,
    decreases s.len(),
{
    if j == s.len() - 1 {
        assert(s.update(j, Some(node)).drop_last() =~= s.drop_last());
    } else {
        assert(s.update(j, Some(node)).drop_last() =~= s.drop_last().update(j, Some(node)));
        lemma_count_live_fill(s.drop_last(), j, node);
    }
}

/// Distinct indices of live slots cannot outnumber the live slots.
proof fn lemma_distinct_live_le<T>(s: Seq<Option<Node<T>>>, ixs: Seq<usize>)
    requires
        forall|k: int| 0 <= k < ixs.len() ==> #[trigger] ixs[k] < s.len() && s[ixs[k] as int] is Some,
        forall|k1: int, k2: int| 0 <= k1 < k2 < ixs.len() ==> ixs[k1] != ixs[k2],
    ensures
        ixs.len() <= count_live(s),
    decreases ixs.len(),
{
    if ixs.len() > 0 {
        let j = ixs.last();
        let s2 = s.update(j as int, None);
        lemma_count_live_vacate(s, j as int);
        assert forall|k: int|
            0 <= k < ixs.drop_last().len() implies #[trigger] ixs.drop_last()[k] < s2.len()
                && s2[ixs.drop_last()[k] as int] is Some by {
            assert(ixs[k] != j);
        }
        lemma_distinct_live_le(s2, ixs.drop_last());
    }
}

/// Distinct indices of vacant slots cannot outnumber the vacant slots.
proof fn lemma_distinct_vacant_le<T>(s: Seq<Option<Node<T>>>, ixs: Seq<usize>)
    requires
        forall|k: int| 0 <= k < ixs.len() ==> #[trigger] ixs[k] < s.len() && s[ixs[k] as int] is None,
        forall|k1: int, k2: int| 0 <= k1 < k2 < ixs.len() ==> ixs[k1] != ixs[k2],
    ensures
        ixs.len() + count_live(s) <= s.len(),
    decreases ixs.len(),
{
    if ixs.len() == 0 {
        lemma_count_live_le(s);
    } else {
        let j = ixs.last();
        let node = vstd::pervasive::arbitrary::<Node<T>>();
        let s2 = s.update(j as int, Some(node));
        lemma_count_live_fill(s, j as int, node);
        assert forall|k: int|
            0 <= k < ixs.drop_last().len() implies #[trigger] ixs.drop_last()[k] < s2.len()
                && s2[ixs.drop_last()[k] as int] is None by {
            assert(ixs[k] != j);
        }
        lemma_distinct_vacant_le(s2, ixs.drop_last());
    }
}

impl<T> List<T> {
    /// How many nodes of the arena are live.
    pub closed spec fn live_node_count(&self) -> nat {
        count_live(self.nodes@)
    }

    /// Law: no node leaks and none is shared out of the chain — a
    /// well-formed deque holds exactly one live node per element, however
    /// the elements got there and however many were popped again.
    pub proof fn lemma_no_leaked_nodes(&self)
        requires
            self.wf(),
        ensures
            self.live_node_count() == self@.len(),
    {
        assert forall|k: int|
            0 <= k < self.order@.len() implies #[trigger] self.order@[k] < self.nodes@.len()
                && self.nodes@[self.order@[k] as int] is Some by {
            assert(self.slot_live(k));
        }
        lemma_distinct_live_le(self.nodes@, self.order@);
        lemma_distinct_vacant_le(self.nodes@, self.free@);
    }
}

} // verus!
