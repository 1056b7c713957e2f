//! A stack of `i32` values on a chain of boxed nodes, each owned by the
//! node before it or by the stack itself.

use crate::second::{pop_step, push_step};
use vstd::prelude::*;

verus! {

/// The stack: it owns the first node of the chain.
#[derive(Debug)]
pub struct LinkList {
    head: Link,
}

/// A link: either the end of the chain or an owned node.
#[derive(Debug)]
pub enum Link {
    Empty,
    More(Box<Node>),
}

/// One element of the chain and the rest of the chain after it.
#[derive(Debug)]
pub struct Node {
    payload: i32,
    next: Link,
}

impl Link {
    /// The values held from this link to the end of the chain, first to last.
    pub closed spec fn view_seq(self) -> Seq<i32>
        decreases self,
    {
        match self {
            Link::Empty => Seq::empty(),
            Link::More(node) => seq![node.payload].add(node.next.view_seq()),
        }
    }
}

impl Link {
    /// Moves the chain out of this link, leaving the link empty.
    pub fn take(&mut self) -> (r: Link)
        ensures
            r == *old(self),
            *final(self) == Link::Empty,
        opens_invariants none
        no_unwind
    {
        let mut r = Link::Empty;
        std::mem::swap(self, &mut r);
        r
    }
}

impl View for LinkList {
    type V = Seq<i32>;

    /// The values on the stack, top first.
    closed spec fn view(&self) -> Seq<i32> {
        self.head.view_seq()
    }
}

impl LinkList {
    /// An empty stack.
    pub fn new() -> (r: Self)
        ensures
            r@ == Seq::<i32>::empty(),
    {
        LinkList { head: Link::Empty }
    }

    /// Puts `payload` on top of the stack.
    pub fn push(&mut self, payload: i32)
        ensures
            final(self)@ == seq![payload].add(old(self)@),
            final(self)@ == push_step(old(self)@, payload),
    {
        let node = Node { payload, next: self.head.take() };
        self.head = Link::More(Box::new(node));
    }

    /// Takes the top value off the stack; `None` when it is empty.
    pub fn pop(&mut self) -> (r: Option<i32>)
        ensures
            old(self)@.len() == 0 ==> r is None && final(self)@ == old(self)@,
            old(self)@.len() > 0 ==> r == Some(old(self)@[0]) && final(self)@ == old(
                self,
            )@.drop_first(),
            (r, final(self)@) == pop_step(old(self)@),
    {
        match self.head.take() {
            Link::Empty => None,
            Link::More(node) => {
                self.head = node.next;
                Some(node.payload)
            },
        }
    }
}

impl Drop for LinkList {
    /// Releases the chain one node at a time, so that a long stack does not
    /// need a call depth proportional to its length.
    fn drop(&mut self)
        ensures
            final(self)@ == Seq::<i32>::empty(),
        opens_invariants none
        no_unwind
    {
        let mut curr = self.head.take();
        loop
            decreases curr,
        {
            match curr {
                Link::Empty => break,
                Link::More(mut node) => {
                    curr = node.next.take();
                },
            }
        }
    }
}

} // verus!
