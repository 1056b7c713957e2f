//! A persistent singly linked list. Nodes are shared through reference
//! counts and never change once built, so lists made from one another share
//! their common tails instead of copying them.

use std::rc::Rc;
use vstd::prelude::*;

verus! {

/// A list: a shared reference to its first node, if any.
#[derive(Debug)]
pub struct List<T> {
    head: Option<Rc<Node<T>>>,
}

/// One element and the shared rest of the chain after it.
#[derive(Debug)]
pub struct Node<T> {
    payload: T,
    next: Option<Rc<Node<T>>>,
}

/// The values held from `link` to the end of the chain, first to last.
pub closed spec fn link_seq<T>(link: Option<Rc<Node<T>>>) -> Seq<T>
    decreases link,
{
    match link {
        None => Seq::empty(),
        Some(node) => seq![node.payload] + link_seq(node.next),
    }
}

/// The first value of `s`, if any.
pub open spec fn head_of<T>(s: Seq<T>) -> Option<T> {
    if s.len() == 0 {
        None
    } else {
        Some(s[0])
    }
}

/// `s` without its first value; empty when `s` is.
pub open spec fn tail_of<T>(s: Seq<T>) -> Seq<T> {
    if s.len() == 0 {
        s
    } else {
        s.drop_first()
    }
}

/// Putting `a` in front of `base` and then asking for the head gives `a`;
/// asking for the tail gives `base` back, whose head is that of `base`.
/// The tail of an empty list is empty again.
pub proof fn lemma_prepend_then_tail<T>(base: Seq<T>, a: T)
    ensures
        head_of(seq![a] + base) == Some(a),
        tail_of(seq![a] + base) == base,
        head_of(tail_of(seq![a] + base)) == head_of(base),
        head_of(Seq::<T>::empty()) is None,
        tail_of(Seq::<T>::empty()) == Seq::<T>::empty(),
{
    assert((seq![a] + base).drop_first() =~= base);
}

impl<T> View for List<T> {
    type V = Seq<T>;

    /// The values of the list, first to last.
    closed spec fn view(&self) -> Seq<T> {
        link_seq(self.head)
    }
}

impl<T> Node<T> {
    /// A node holding `payload` in front of the chain `next`.
    pub fn new(payload: T, next: Option<Rc<Node<T>>>) -> (r: Self)
        ensures
            link_seq(Some(Rc::new(r))) == seq![payload] + link_seq(next),
    {
        Node { payload, next }
    }
}

impl<T> List<T> {
    /// An empty list.
    pub fn new() -> (r: Self)
        ensures
            r@ == Seq::<T>::empty(),
    {
        List { head: None }
    }

    /// A new list: `payload` in front of this one, whose nodes it shares.
    /// This list is left as it was.
    pub fn prepend(&self, payload: T) -> (r: List<T>)
        ensures
            r@ == seq![payload] + self@,
    {
        let next = match &self.head {
            None => None,
            Some(node) => Some(Rc::clone(node)),
        };
        List { head: Some(Rc::new(Node::new(payload, next))) }
    }

    /// A new list that shares all of this one but its first node; empty
    /// when this one is.
    pub fn tail(&self) -> (r: List<T>)
        ensures
            r@ == tail_of(self@),
    {
        match &self.head {
            None => List { head: None },
            Some(node) => match &node.next {
                None => List { head: None },
                Some(next) => List { head: Some(Rc::clone(next)) },
            },
        }
    }

    /// The first value, borrowed; `None` when the list is empty.
    pub fn head(&self) -> (r: Option<&T>)
        ensures
            r matches Some(v) ==> head_of(self@) == Some(*v),
            r is None ==> head_of(self@) is None,
    {
        match &self.head {
            None => None,
            Some(node) => Some(&node.payload),
        }
    }

    /// A borrowing walk over the values, first to last.
    pub fn into_iter(&self) -> (r: IterBorrow<'_, T>)
        ensures
            r@ == self@,
    {
        match &self.head {
            None => IterBorrow { next: None },
            Some(node) => IterBorrow { next: Some(&**node) },
        }
    }
}

impl<T> Drop for List<T> {
    /// Releases this list's hold on its chain one node at a time. A node is
    /// followed only while this list held the last reference to it; the
    /// walk stops at the first node that another list still shares.
    fn drop(&mut self)
        ensures
            final(self)@ == Seq::<T>::empty(),
        opens_invariants none
        no_unwind
    {
        let mut curr: Option<Rc<Node<T>>> = None;
        std::mem::swap(&mut self.head, &mut curr);
        loop
            decreases curr,
        {
            match curr {
                None => break,
                Some(node) => match sole_owner(node) {
                    Ok(mut node) => {
                        let mut next: Option<Rc<Node<T>>> = None;
                        std::mem::swap(&mut node.next, &mut next);
                        curr = next;
                    },
                    Err(_) => break,
                },
            }
        }
    }
}

/// Relies on `Rc::try_unwrap`: it hands back the node when `rc` was its
/// only strong reference and `rc` itself otherwise, and it neither panics
/// nor touches anything else, so that teardown can call it.
#[verifier::external_body]
fn sole_owner<T>(rc: Rc<Node<T>>) -> (r: Result<Node<T>, Rc<Node<T>>>)
    ensures
        match r {
            Ok(node) => node == *rc,
            Err(back) => back == rc,
        },
    opens_invariants none
    no_unwind
{
    Rc::try_unwrap(rc)
}

/// A borrowing walk over a list's values.
pub struct IterBorrow<'a, T> {
    next: Option<&'a Node<T>>,
}

impl<'a, T> View for IterBorrow<'a, T> {
    type V = Seq<T>;

    /// The values not yet handed out, in order.
    closed spec fn view(&self) -> Seq<T> {
        match self.next {
            None => Seq::empty(),
            Some(node) => seq![node.payload] + link_seq(node.next),
        }
    }
}

impl<'a, T> IterBorrow<'a, T> {
    /// The next value, borrowed from the list; `None` once all are out.
    pub fn next(&mut self) -> (r: Option<&'a T>)
        ensures
            old(self)@.len() == 0 ==> r is None && final(self)@ == old(self)@,
            old(self)@.len() > 0 ==> (r matches Some(v) && *v == old(self)@[0] && final(self)@
                == old(self)@.drop_first()),
    {
        match self.next {
            None => None,
            Some(node) => {
                self.next =
                match &node.next {
                    None => None,
                    Some(n) => Some(&**n),
                };
                Some(&node.payload)
            },
        }
    }
}

} // verus!
