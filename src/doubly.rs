use vstd::prelude::*;

use crate::model::{appended, holds_equal, removed_last};
use vstd::std_specs::cmp::PartialEqSpec;

verus! {

/// A node of the doubly linked list: a value, the index of the next node and
/// the index of the previous one.
struct NodeD<T> {
    data: T,
    next: Option<usize>,
    prev: Option<usize>,
}

/// A doubly linked list whose nodes live in an arena and are linked by index
/// in both directions.
///
/// The back links let `remove_last` reach the node before the tail without
/// walking the chain. Since nodes are only added and removed at the tail, the
/// node at arena index `i` is always the `i`-th node of the chain.
pub struct DoublyLinkedList<T> {
    nodes: Vec<NodeD<T>>,
    head: Option<usize>,
    tail: Option<usize>,
}

impl<T> View for DoublyLinkedList<T> {
    type V = Seq<T>;

    /// The elements of the list, from head to tail.
    closed spec fn view(&self) -> Seq<T> {
        self.nodes@.map_values(|n: NodeD<T>| n.data)
    }
}

impl<T> DoublyLinkedList<T> {
    /// The chain runs from `head` through the `next` links to `tail`, each
    /// node's `prev` link names its predecessor (none for the head), and both
    /// ends are absent exactly when the list is empty.
    pub closed spec fn wf(&self) -> bool {
        let len = self.nodes.len();
        &&& self.head == (if len == 0 { None::<usize> } else { Some(0usize) })
        &&& self.tail == (if len == 0 { None::<usize> } else { Some((len - 1) as usize) })
        &&& forall|i: int|
            0 <= i < len ==> {
                &&& (#[trigger] self.nodes@[i]).next == (if i + 1 < len {
                    Some((i + 1) as usize)
                } else {
                    None::<usize>
                })
                &&& self.nodes@[i].prev == (if i > 0 {
                    Some((i - 1) as usize)
                } else {
                    None::<usize>
                })
            }
    }

    /// Neither end of the list is present.
    pub closed spec fn ends_absent(&self) -> bool {
        self.head.is_none() && self.tail.is_none()
    }

    /// In a well-formed list both ends are absent exactly when it holds no element.
    pub proof fn lemma_ends_absent(&self)
        requires
            self.wf(),
        ensures
            self.ends_absent() <==> self@.len() == 0,
    {
    }

    /// Makes an empty list.
    pub fn new() -> (list: Self)
        ensures
            list.wf(),
            list@ == Seq::<T>::empty(),
            list.ends_absent(),
    {
        DoublyLinkedList { nodes: Vec::new(), head: None, tail: None }
    }

    /// Adds `data` after the last element: the former tail links forward to
    /// the new node, which links back to the former tail.
    pub fn append(&mut self, data: T)
        requires
            old(self).wf(),
        ensures
            final(self).wf(),
            final(self)@ == appended(old(self)@, data),
    {
        let n = self.nodes.len();
        let prev = self.tail;
        match self.tail {
            Some(t) => {
                self.nodes[t].next = Some(n);
            },
            None => {
                self.head = Some(n);
            },
        }
        self.nodes.push(NodeD { data, next: None, prev });
        self.tail = Some(n);
        proof {
            assert(self@ =~= old(self)@.push(data));
        }
    }

    /// Removes the last element, if any, in constant time: the tail's back
    /// link gives its predecessor, whose forward link is cleared and which
    /// becomes the new tail. Removing the only element leaves both ends absent.
    pub fn remove_last(&mut self)
        requires
            old(self).wf(),
        ensures
            final(self).wf(),
            final(self)@ == removed_last(old(self)@),
            final(self).ends_absent() <==> final(self)@.len() == 0,
    {
        match self.tail {
            None => {},
            Some(t) => {
                let pred = self.nodes[t].prev;
                self.nodes[t].prev = None;
                match pred {
                    Some(p) => {
                        self.nodes[p].next = None;
                        self.tail = Some(p);
                    },
                    None => {
                        self.head = None;
                        self.tail = None;
                    },
                }
                let _removed = self.nodes.pop();
                proof {
                    assert(self@ =~= old(self)@.drop_last());
                }
            },
        }
    }
}

impl<T: PartialEq> DoublyLinkedList<T> {
    /// Walks the chain from the head along the forward links and reports
    /// whether some element is equal to `data`, stopping at the first match.
    pub fn find(&self, data: T) -> (found: bool)
        requires
            self.wf(),
        ensures
            T::obeys_eq_spec() ==> found == holds_equal(self@, data),
    {
        let mut cur: Option<usize> = self.head;
        loop
            invariant
                self.wf(),
                match cur {
                    Some(i) => i < self.nodes@.len(),
                    None => true,
                },
                T::obeys_eq_spec() ==> forall|j: int|
                    0 <= j < (match cur {
                        Some(i) => i as int,
                        None => self.nodes@.len() as int,
                    }) ==> !(#[trigger] self@[j]).eq_spec(&data),
            decreases
                match cur {
                    Some(i) => self.nodes@.len() - i,
                    None => 0,
                },
        {
            match cur {
                None => {
                    return false;
                },
                Some(i) => {
                    let node = &self.nodes[i];
                    proof {
                        assert(self@[i as int] == self.nodes@[i as int].data);
                        assert(self.nodes@[i as int].next == node.next);
                    }
                    if node.data.eq(&data) {
                        return true;
                    }
                    cur = node.next;
                },
            }
        }
    }
}

/// The values met when following `next` links from `cur`, taking at most
/// `fuel` steps.
spec fn walk_forward<T>(nodes: Seq<NodeD<T>>, cur: Option<usize>, fuel: nat) -> Seq<T>
    decreases fuel,
{
    match cur {
        None => Seq::empty(),
        Some(i) => if fuel == 0 || i >= nodes.len() {
            Seq::empty()
        } else {
            seq![nodes[i as int].data] + walk_forward(nodes, nodes[i as int].next, (fuel - 1) as nat)
        },
    }
}

/// The values met when following `prev` links from `cur`, taking at most
/// `fuel` steps.
spec fn walk_backward<T>(nodes: Seq<NodeD<T>>, cur: Option<usize>, fuel: nat) -> Seq<T>
    decreases fuel,
{
    match cur {
        None => Seq::empty(),
        Some(i) => if fuel == 0 || i >= nodes.len() {
            Seq::empty()
        } else {
            seq![nodes[i as int].data] + walk_backward(nodes, nodes[i as int].prev, (fuel - 1) as nat)
        },
    }
}

impl<T> DoublyLinkedList<T> {
    /// The values met walking the forward links from the head.
    pub closed spec fn forward_walk(&self) -> Seq<T> {
        walk_forward(self.nodes@, self.head, self.nodes@.len())
    }

    /// The values met walking the back links from the tail.
    pub closed spec fn backward_walk(&self) -> Seq<T> {
        walk_backward(self.nodes@, self.tail, self.nodes@.len())
    }

    proof fn lemma_walk_forward_from(&self, i: int)
        requires
            self.wf(),
            0 <= i < self.nodes@.len(),
        ensures
            walk_forward(self.nodes@, Some(i as usize), (self.nodes@.len() - i) as nat)
                == self@.subrange(i, self.nodes@.len() as int),
        decreases self.nodes@.len() - i,
    {
        let len = self.nodes@.len() as int;
        let node = self.nodes@[i];
        let rest = walk_forward(self.nodes@, node.next, (len - i - 1) as nat);
        assert(walk_forward(self.nodes@, Some(i as usize), (len - i) as nat) == seq![node.data]
            + rest);
        if i + 1 < len {
            self.lemma_walk_forward_from(i + 1);
            assert(rest == self@.subrange(i + 1, len));
        } else {
            assert(rest == Seq::<T>::empty());
        }
        assert(self@[i] == node.data);
        assert(walk_forward(self.nodes@, Some(i as usize), (len - i) as nat) =~= self@.subrange(
            i,
            len,
        ));
    }

    proof fn lemma_walk_backward_from(&self, i: int)
        requires
            self.wf(),
            0 <= i < self.nodes@.len(),
        ensures
            walk_backward(self.nodes@, Some(i as usize), (i + 1) as nat) == self@.subrange(
                0,
                i + 1,
            ).reverse(),
        decreases i,
    {
        let node = self.nodes@[i];
        let rest = walk_backward(self.nodes@, node.prev, i as nat);
        assert(walk_backward(self.nodes@, Some(i as usize), (i + 1) as nat) == seq![node.data]
            + rest);
        if i > 0 {
            self.lemma_walk_backward_from(i - 1);
            assert(rest == self@.subrange(0, i).reverse());
        } else {
            assert(rest == Seq::<T>::empty());
        }
        assert(self@[i] == node.data);
        assert(walk_backward(self.nodes@, Some(i as usize), (i + 1) as nat) =~= self@.subrange(
            0,
            i + 1,
        ).reverse());
    }

    /// Walking the forward links from the head meets the list's elements in order.
    pub proof fn lemma_forward_walk(&self)
        requires
            self.wf(),
        ensures
            self.forward_walk() == self@,
    {
        if self.nodes@.len() > 0 {
            self.lemma_walk_forward_from(0);
            assert(self@.subrange(0, self.nodes@.len() as int) =~= self@);
        }
    }

    /// Walking the back links from the tail meets the list's elements in
    /// reverse order.
    pub proof fn lemma_backward_walk(&self)
        requires
            self.wf(),
        ensures
            self.backward_walk() == self@.reverse(),
    {
        let len = self.nodes@.len() as int;
        if len > 0 {
            self.lemma_walk_backward_from(len - 1);
            assert(self@.subrange(0, len) =~= self@);
        } else {
            assert(self@.reverse() =~= Seq::<T>::empty());
        }
    }

    /// In every well-formed state, the walk along the back links from the tail
    /// meets the same elements as the walk along the forward links from the
    /// head, in reverse order.
    pub proof fn lemma_walks_mirror(&self)
        requires
            self.wf(),
        ensures
            self.backward_walk() == self.forward_walk().reverse(),
    {
        self.lemma_forward_walk();
        self.lemma_backward_walk();
    }
}

impl<T> DoublyLinkedList<T> {
    /// The elements from head to tail, met by walking the forward links.
    pub fn traverse(&self) -> (items: Vec<&T>)
        requires
            self.wf(),
        ensures
            items@.len() == self@.len(),
            forall|k: int| 0 <= k < self@.len() ==> *(#[trigger] items@[k]) == self@[k],
    {
        let mut items: Vec<&T> = Vec::new();
        let mut cur: Option<usize> = self.head;
        loop
            invariant
                self.wf(),
                match cur {
                    Some(i) => i < self.nodes@.len() && items@.len() == i,
                    None => items@.len() == self.nodes@.len(),
                },
                forall|k: int| 0 <= k < items@.len() ==> *(#[trigger] items@[k]) == self@[k],
            decreases
                match cur {
                    Some(i) => self.nodes@.len() - i,
                    None => 0,
                },
        {
            match cur {
                None => {
                    return items;
                },
                Some(i) => {
                    let node = &self.nodes[i];
                    proof {
                        assert(self@[i as int] == self.nodes@[i as int].data);
                        assert(self.nodes@[i as int].next == node.next);
                    }
                    items.push(&node.data);
                    cur = node.next;
                },
            }
        }
    }

    /// The elements from tail to head, met by walking the back links.
    pub fn traverse_backward(&self) -> (items: Vec<&T>)
        requires
            self.wf(),
        ensures
            items@.len() == self@.len(),
            forall|k: int|
                0 <= k < self@.len() ==> *(#[trigger] items@[k]) == self@.reverse()[k],
    {
        let mut items: Vec<&T> = Vec::new();
        let mut cur: Option<usize> = self.tail;
        loop
            invariant
                self.wf(),
                match cur {
                    Some(i) => i < self.nodes@.len() && items@.len() == self.nodes@.len() - 1 - i,
                    None => items@.len() == self.nodes@.len(),
                },
                forall|k: int|
                    0 <= k < items@.len() ==> *(#[trigger] items@[k]) == self@[self@.len() - 1
                        - k],
            decreases
                match cur {
                    Some(i) => i + 1,
                    None => 0,
                },
        {
            match cur {
                None => {
                    return items;
                },
                Some(i) => {
                    let node = &self.nodes[i];
                    proof {
                        assert(self@[i as int] == self.nodes@[i as int].data);
                        assert(self.nodes@[i as int].prev == node.prev);
                    }
                    items.push(&node.data);
                    cur = node.prev;
                },
            }
        }
    }
}

} // verus!
