//! A persistent singly linked list, used for the hash-collision chains of
//! the map.  Cloning is cheap and shares the whole chain; dropping the first
//! element shares the tail.

use crate::shared_ptr::arc_dup;
use std::sync::Arc;
use vstd::prelude::*;

verus! {

pub(crate) struct ListNode<T> {
    elem: T,
    next: Option<Arc<ListNode<T>>>,
}

impl<T> ListNode<T> {
    /// The elements from this node to the end of the chain.
    pub(crate) closed spec fn seq_of(self) -> Seq<T>
        decreases self,
    {
        seq![self.elem] + nodes_seq(self.next)
    }

    /// The element held by this node.
    pub(crate) fn elem_ref(&self) -> (r: &T)
        ensures
            self.seq_of().len() > 0 && *r == self.seq_of()[0],
    {
        &self.elem
    }

    /// The next node of the chain, if any.
    pub(crate) fn next_ref(&self) -> (r: Option<&ListNode<T>>)
        ensures
            match r {
                Option::Some(m) => m.seq_of().len() > 0 && m.seq_of()
                    == self.seq_of().drop_first(),
                Option::None => self.seq_of().len() == 1,
            },
    {
        match &self.next {
            Option::None => {
                proof {
                    assert(nodes_seq(self.next).len() == 0);
                }
                Option::None
            },
            Option::Some(m) => {
                proof {
                    assert(nodes_seq(self.next) == seq![m.elem] + nodes_seq(m.next));
                    assert(m.seq_of() =~= self.seq_of().drop_first());
                }
                let node: &ListNode<T> = &*m;
                Option::Some(node)
            },
        }
    }
}

/// A persistent singly linked list.  Its view is the sequence of its
/// elements from front to back.
pub struct List<T> {
    head: Option<Arc<ListNode<T>>>,
}

spec fn nodes_seq<T>(o: Option<Arc<ListNode<T>>>) -> Seq<T>
    decreases o,
{
    match o {
        Option::None => Seq::empty(),
        Option::Some(n) => seq![n.elem] + nodes_seq(n.next),
    }
}

fn dup_link<T>(o: &Option<Arc<ListNode<T>>>) -> (r: Option<Arc<ListNode<T>>>)
    ensures
        r == *o,
{
    match o {
        Option::None => Option::None,
        Option::Some(a) => Option::Some(arc_dup(a)),
    }
}

impl<T> View for List<T> {
    type V = Seq<T>;

    closed spec fn view(&self) -> Seq<T> {
        nodes_seq(self.head)
    }
}

impl<T> List<T> {
    /// The empty list.
    pub fn new() -> (r: List<T>)
        ensures
            r@ == Seq::<T>::empty(),
    {
        List { head: Option::None }
    }

    /// Whether the list has no elements.
    pub fn is_empty(&self) -> (r: bool)
        ensures
            r == (self@.len() == 0),
    {
        match &self.head {
            Option::None => true,
            Option::Some(_) => false,
        }
    }

    /// Whether the list has exactly one element.
    pub fn is_singleton(&self) -> (r: bool)
        ensures
            r == (self@.len() == 1),
    {
        match &self.head {
            Option::None => false,
            Option::Some(n) => {
                proof {
                    assert(self@ == seq![n.elem] + nodes_seq(n.next));
                }
                match &n.next {
                    Option::None => {
                        proof {
                            assert(nodes_seq(n.next).len() == 0);
                        }
                        true
                    },
                    Option::Some(m) => {
                        proof {
                            assert(nodes_seq(n.next) == seq![m.elem] + nodes_seq(m.next));
                        }
                        false
                    },
                }
            },
        }
    }

    /// Puts an element at the front; the rest of the list is shared.
    pub fn push_front(self, e: T) -> (r: List<T>)
        ensures
            r@ == seq![e] + self@,
    {
        List { head: Option::Some(Arc::new(ListNode { elem: e, next: self.head })) }
    }

    /// Drops the first element; the tail is shared.
    pub fn drop_first(self) -> (r: List<T>)
        requires
            self@.len() > 0,
        ensures
            r@ == self@.drop_first(),
    {
        match self.head {
            Option::Some(n) => {
                let next = dup_link(&n.next);
                assert(nodes_seq(next) =~= nodes_seq(self.head).drop_first());
                List { head: next }
            },
            Option::None => List { head: Option::None },
        }
    }

    /// The first element, if any.
    pub fn first(&self) -> (r: Option<&T>)
        ensures
            match r {
                Option::Some(t) => self@.len() > 0 && *t == self@[0],
                Option::None => self@.len() == 0,
            },
    {
        match &self.head {
            Option::None => Option::None,
            Option::Some(n) => {
                let node: &ListNode<T> = &*n;
                Option::Some(&node.elem)
            },
        }
    }

    /// A list with the same elements, sharing the whole chain.
    pub fn dup(&self) -> (r: List<T>)
        ensures
            r == *self,
    {
        List { head: dup_link(&self.head) }
    }

    /// The first node of the chain, for walking the list by reference.
    pub(crate) fn head_node(&self) -> (r: Option<&ListNode<T>>)
        ensures
            match r {
                Option::Some(n) => n.seq_of().len() > 0 && n.seq_of() == self@,
                Option::None => self@.len() == 0,
            },
    {
        match &self.head {
            Option::None => Option::None,
            Option::Some(n) => {
                proof {
                    assert(n.seq_of() == seq![n.elem] + nodes_seq(n.next));
                }
                let node: &ListNode<T> = &*n;
                Option::Some(node)
            },
        }
    }
}

} // verus!
