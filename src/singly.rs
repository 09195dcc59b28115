use vstd::prelude::*;

use crate::model::{appended, holds_equal, removed_last};
use vstd::std_specs::cmp::PartialEqSpec;

verus! {

/// A node of the singly linked list: a value and the index of the next node.
struct Node<T> {
    data: T,
    next: Option<usize>,
}

/// A singly linked list whose nodes live in an arena and are linked by index.
///
/// `head` is the index of the first node and `tail` the index of the last
/// one, kept so that appending does not walk the chain. Since nodes are only
/// added and removed at the tail, the node at arena index `i` is always the
/// `i`-th node of the chain.
pub struct SinglyLinkedList<T> {
    nodes: Vec<Node<T>>,
    head: Option<usize>,
    tail: Option<usize>,
}

impl<T> View for SinglyLinkedList<T> {
    type V = Seq<T>;

    /// The elements of the list, from head to tail.
    closed spec fn view(&self) -> Seq<T> {
        self.nodes@.map_values(|n: Node<T>| n.data)
    }
}

impl<T> SinglyLinkedList<T> {
    /// The chain runs from `head` through the `next` links to `tail`, visiting
    /// every node of the arena once, and both ends are absent exactly when the
    /// list is empty.
    pub closed spec fn wf(&self) -> bool {
        let len = self.nodes.len();
        &&& self.head == (if len == 0 { None::<usize> } else { Some(0usize) })
        &&& self.tail == (if len == 0 { None::<usize> } else { Some((len - 1) as usize) })
        &&& forall|i: int|
            0 <= i < len ==> (#[trigger] self.nodes@[i]).next == (if i + 1 < len {
                Some((i + 1) as usize)
            } else {
                None::<usize>
            })
    }

    /// Neither end of the list is present.
    pub closed spec fn ends_absent(&self) -> bool {
        self.head.is_none() && self.tail.is_none()
    }

    /// In a well-formed list both ends are absent exactly when it holds no element.
    pub proof fn lemma_ends_absent(&self)
        requires
            self.wf(),
        ensures
            self.ends_absent() <==> self@.len() == 0,
    {
    }

    /// Makes an empty list.
    pub fn new() -> (list: Self)
        ensures
            list.wf(),
            list@ == Seq::<T>::empty(),
            list.ends_absent(),
    {
        SinglyLinkedList { nodes: Vec::new(), head: None, tail: None }
    }

    /// Adds `data` after the last element, linking it from the former tail.
    pub fn append(&mut self, data: T)
        requires
            old(self).wf(),
        ensures
            final(self).wf(),
            final(self)@ == appended(old(self)@, data),
    {
        let n = self.nodes.len();
        match self.tail {
            Some(t) => {
                self.nodes[t].next = Some(n);
            },
            None => {
                self.head = Some(n);
            },
        }
        self.nodes.push(Node { data, next: None });
        self.tail = Some(n);
        proof {
            assert(self@ =~= old(self)@.push(data));
        }
    }
}

impl<T: PartialEq> SinglyLinkedList<T> {
    /// Walks the chain from the head and reports whether some element is
    /// equal to `data`, stopping at the first match.
    pub fn find(&self, data: T) -> (found: bool)
        requires
            self.wf(),
        ensures
            T::obeys_eq_spec() ==> found == holds_equal(self@, data),
    {
        let mut cur: Option<usize> = self.head;
        loop
            invariant
                self.wf(),
                match cur {
                    Some(i) => i < self.nodes@.len(),
                    None => true,
                },
                T::obeys_eq_spec() ==> forall|j: int|
                    0 <= j < (match cur {
                        Some(i) => i as int,
                        None => self.nodes@.len() as int,
                    }) ==> !(#[trigger] self@[j]).eq_spec(&data),
            decreases
                match cur {
                    Some(i) => self.nodes@.len() - i,
                    None => 0,
                },
        {
            match cur {
                None => {
                    return false;
                },
                Some(i) => {
                    let node = &self.nodes[i];
                    proof {
                        assert(self@[i as int] == self.nodes@[i as int].data);
                        assert(self.nodes@[i as int].next == node.next);
                    }
                    if node.data.eq(&data) {
                        return true;
                    }
                    cur = node.next;
                },
            }
        }
    }
}

impl<T> SinglyLinkedList<T> {
    /// Removes the last element, if any. Without back links the node before
    /// the tail is found by walking the chain from the head; it becomes the
    /// new tail and its forward link is cleared. Removing the only element
    /// leaves both ends absent.
    pub fn remove_last(&mut self)
        requires
            old(self).wf(),
        ensures
            final(self).wf(),
            final(self)@ == removed_last(old(self)@),
            final(self).ends_absent() <==> final(self)@.len() == 0,
    {
        match self.tail {
            None => {},
            Some(t) => {
                proof {
                    assert(self.nodes@.len() == t + 1);
                }
                let mut pred: Option<usize> = None;
                let mut cur: Option<usize> = self.head;
                while cur.is_some() && pred.is_none()
                    invariant
                        self.wf(),
                        self.tail == Some(t),
                        self.nodes@.len() == t + 1,
                        pred is Some ==> t > 0 && pred == Some((t - 1) as usize),
                        pred is None ==> match cur {
                            Some(i) => i <= t && (i < t || t == 0),
                            None => t == 0,
                        },
                    decreases
                        (if pred is None { 1int } else { 0int }) + match cur {
                            Some(i) => self.nodes@.len() - i,
                            None => 0,
                        },
                {
                    let i = cur.unwrap();
                    let next = self.nodes[i].next;
                    proof {
                        assert(self.nodes@[i as int].next == next);
                    }
                    if next == Some(t) {
                        pred = Some(i);
                    } else {
                        cur = next;
                    }
                }
                match pred {
                    Some(p) => {
                        self.nodes[p].next = None;
                        self.tail = Some(p);
                    },
                    None => {
                        self.head = None;
                        self.tail = None;
                    },
                }
                let _removed = self.nodes.pop();
                proof {
                    assert(self@ =~= old(self)@.drop_last());
                }
            },
        }
    }
}

impl<T> SinglyLinkedList<T> {
    /// The elements from head to tail, met by walking the forward links.
    pub fn traverse(&self) -> (items: Vec<&T>)
        requires
            self.wf(),
        ensures
            items@.len() == self@.len(),
            forall|k: int| 0 <= k < self@.len() ==> *(#[trigger] items@[k]) == self@[k],
    {
        let mut items: Vec<&T> = Vec::new();
        let mut cur: Option<usize> = self.head;
        loop
            invariant
                self.wf(),
                match cur {
                    Some(i) => i < self.nodes@.len() && items@.len() == i,
                    None => items@.len() == self.nodes@.len(),
                },
                forall|k: int| 0 <= k < items@.len() ==> *(#[trigger] items@[k]) == self@[k],
            decreases
                match cur {
                    Some(i) => self.nodes@.len() - i,
                    None => 0,
                },
        {
            match cur {
                None => {
                    return items;
                },
                Some(i) => {
                    let node = &self.nodes[i];
                    proof {
                        assert(self@[i as int] == self.nodes@[i as int].data);
                        assert(self.nodes@[i as int].next == node.next);
                    }
                    items.push(&node.data);
                    cur = node.next;
                },
            }
        }
    }
}

} // verus!
