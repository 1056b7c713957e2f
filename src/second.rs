//! A generic last-in, first-out stack on a chain of boxed nodes. Every node
//! has exactly one owner: the node before it, or the stack for the first.

use vstd::prelude::*;

verus! {

/// The stack: it owns the first node of the chain.
#[derive(Debug)]
pub struct List<T> {
    head: Option<Box<Node<T>>>,
}

/// One element of the chain and the rest of the chain after it.
#[derive(Debug)]
pub struct Node<T> {
    payload: T,
    next: Option<Box<Node<T>>>,
}

/// The values held from `link` to the end of the chain, first to last.
pub closed spec fn link_seq<T>(link: Option<Box<Node<T>>>) -> Seq<T>
    decreases link,
{
    match link {
        None => Seq::empty(),
        Some(node) => seq![node.payload] + link_seq(node.next),
    }
}

/// The values of a stack that held `s`, top first, once `v` is pushed.
pub open spec fn push_step<T>(s: Seq<T>, v: T) -> Seq<T> {
    seq![v] + s
}

/// What one pop returns from a stack that holds `s`, and what the stack
/// holds afterwards.
pub open spec fn pop_step<T>(s: Seq<T>) -> (Option<T>, Seq<T>) {
    if s.len() == 0 {
        (None, s)
    } else {
        (Some(s[0]), s.drop_first())
    }
}

/// The values held by the stack `s` after pushing `vs` in order, one
/// `push_step` each.
pub open spec fn pushed<T>(s: Seq<T>, vs: Seq<T>) -> Seq<T>
    decreases vs.len(),
{
    if vs.len() == 0 {
        s
    } else {
        pushed(push_step(s, vs[0]), vs.drop_first())
    }
}

/// What `n` successive pops return from a stack that holds `s`, one
/// `pop_step` each.
pub open spec fn popped<T>(s: Seq<T>, n: nat) -> Seq<Option<T>>
    decreases n,
{
    if n == 0 {
        Seq::empty()
    } else {
        seq![pop_step(s).0] + popped(pop_step(s).1, (n - 1) as nat)
    }
}

proof fn lemma_pushed<T>(s: Seq<T>, vs: Seq<T>)
    ensures
        pushed(s, vs) == vs.reverse() + s,
    decreases vs.len(),
{
    if vs.len() > 0 {
        lemma_pushed(seq![vs[0]] + s, vs.drop_first());
        assert(vs.drop_first().reverse() + (seq![vs[0]] + s) =~= vs.reverse() + s);
    } else {
        assert(vs.reverse() + s =~= s);
    }
}

proof fn lemma_popped<T>(s: Seq<T>, k: nat)
    ensures
        popped(s, s.len() + k) == s.map_values(|v: T| Some(v)) + Seq::new(
            k,
            |i: int| None::<T>,
        ),
    decreases s.len() + k,
{
    if s.len() > 0 {
        lemma_popped(s.drop_first(), k);
        assert(seq![Some(s[0])] + (s.drop_first().map_values(|v: T| Some(v)) + Seq::new(
            k,
            |i: int| None::<T>,
        )) =~= s.map_values(|v: T| Some(v)) + Seq::new(k, |i: int| None::<T>));
    } else if k > 0 {
        lemma_popped(s, (k - 1) as nat);
        assert(seq![None] + (s.map_values(|v: T| Some(v)) + Seq::new(
            (k - 1) as nat,
            |i: int| None::<T>,
        )) =~= s.map_values(|v: T| Some(v)) + Seq::new(k, |i: int| None::<T>));
    } else {
        assert(s.map_values(|v: T| Some(v)) + Seq::new(k, |i: int| None::<T>) =~= Seq::empty());
    }
}

/// Pushing `vs` onto an empty stack and then popping `vs.len() + k` times
/// returns the values of `vs` last to first, then `None` on every further pop.
/// `List::push` and `List::pop` (and `LinkList`'s) each take exactly one
/// `push_step` or `pop_step`, so this holds of any run of those calls.
pub proof fn lemma_last_in_first_out<T>(vs: Seq<T>, k: nat)
    ensures
        popped(pushed(Seq::empty(), vs), vs.len() + k) == vs.reverse().map_values(
            |v: T| Some(v),
        ) + Seq::new(k, |i: int| None::<T>),
{
    lemma_pushed(Seq::<T>::empty(), vs);
    assert(vs.reverse() + Seq::<T>::empty() =~= vs.reverse());
    lemma_popped(vs.reverse(), k);
}

impl<T> View for List<T> {
    type V = Seq<T>;

    /// The values on the stack, top first.
    closed spec fn view(&self) -> Seq<T> {
        link_seq(self.head)
    }
}

impl<T> Node<T> {
    /// A node holding `value` in front of the chain `next`.
    pub fn new(next: Option<Box<Node<T>>>, value: T) -> (r: Node<T>)
        ensures
            link_seq(Some(Box::new(r))) == seq![value] + link_seq(next),
    {
        Node { payload: value, next }
    }
}

impl<T> List<T> {
    /// An empty stack.
    pub fn new() -> (r: Self)
        ensures
            r@ == Seq::<T>::empty(),
    {
        List { head: None }
    }

    /// Puts `value` on top of the stack.
    pub fn push(&mut self, value: T)
        ensures
            final(self)@ == seq![value] + old(self)@,
            final(self)@ == push_step(old(self)@, value),
    {
        let new_node = Node::new(self.head.take(), value);
        self.head = Some(Box::new(new_node));
    }

    /// Takes the top value off the stack; `None`, with the stack unchanged,
    /// when it is empty.
    pub fn pop(&mut self) -> (r: Option<T>)
        ensures
            old(self)@.len() == 0 ==> r is None && final(self)@ == old(self)@,
            old(self)@.len() > 0 ==> r == Some(old(self)@[0]) && final(self)@ == old(
                self,
            )@.drop_first(),
            (r, final(self)@) == pop_step(old(self)@),
    {
        match self.head.take() {
            None => None,
            Some(node) => {
                let node = *node;
                self.head = node.next;
                Some(node.payload)
            },
        }
    }

    /// The top value, if any, borrowed.
    pub fn peek(&self) -> (r: Option<&T>)
        ensures
            self@.len() == 0 ==> r is None,
            self@.len() > 0 ==> (r matches Some(v) && *v == self@[0]),
    {
        match &self.head {
            None => None,
            Some(node) => Some(&node.payload),
        }
    }

    /// The top value, if any, borrowed mutably: what is written through it
    /// becomes the top of the stack.
    pub fn peek_mut(&mut self) -> (r: Option<&mut T>)
        ensures
            old(self)@.len() == 0 ==> r is None && final(self)@ == old(self)@,
            old(self)@.len() > 0 ==> (r matches Some(v) && *v == old(self)@[0] && final(self)@
                == old(self)@.update(0, *final(v))),
    {
        match &mut self.head {
            None => None,
            Some(node) => Some(&mut node.payload),
        }
    }

    /// A borrowing walk over the values, top first.
    pub fn iter(&self) -> (r: Iter<'_, T>)
        ensures
            r@ == self@,
    {
        match &self.head {
            None => Iter { next: None },
            Some(node) => Iter { next: Some(&**node) },
        }
    }

    /// A walk that consumes the stack and hands out its values, top first.
    pub fn into_iter(self) -> (r: IntoIter<T>)
        ensures
            r@ == self@,
    {
        IntoIter(self)
    }
}

impl<T> Drop for List<T> {
    /// Releases the chain one node at a time, so that a long stack does not
    /// need a call depth proportional to its length.
    fn drop(&mut self)
        ensures
            final(self)@ == Seq::<T>::empty(),
        opens_invariants none
        no_unwind
    {
        let mut curr: Option<Box<Node<T>>> = None;
        std::mem::swap(&mut self.head, &mut curr);
        loop
            decreases curr,
        {
            match curr {
                None => break,
                Some(mut node) => {
                    let mut next: Option<Box<Node<T>>> = None;
                    std::mem::swap(&mut node.next, &mut next);
                    curr = next;
                },
            }
        }
    }
}

/// A borrowing walk over a stack's values.
pub struct Iter<'a, T> {
    next: Option<&'a Node<T>>,
}

impl<'a, T> View for Iter<'a, T> {
    type V = Seq<T>;

    /// The values not yet handed out, in order.
    closed spec fn view(&self) -> Seq<T> {
        match self.next {
            None => Seq::empty(),
            Some(node) => seq![node.payload] + link_seq(node.next),
        }
    }
}

impl<'a, T> Iter<'a, T> {
    /// The next value, borrowed from the stack; `None` once all are out.
    pub fn next(&mut self) -> (r: Option<&'a T>)
        ensures
            old(self)@.len() == 0 ==> r is None && final(self)@ == old(self)@,
            old(self)@.len() > 0 ==> (r matches Some(v) && *v == old(self)@[0] && final(self)@
                == old(self)@.drop_first()),
    {
        match self.next {
            None => None,
            Some(node) => {
                self.next =
                match &node.next {
                    None => None,
                    Some(n) => Some(&**n),
                };
                Some(&node.payload)
            },
        }
    }
}

/// A walk that owns the stack and pops its values one by one.
pub struct IntoIter<T>(List<T>);

impl<T> View for IntoIter<T> {
    type V = Seq<T>;

    /// The values not yet handed out, in order.
    closed spec fn view(&self) -> Seq<T> {
        self.0@
    }
}

impl<T> IntoIter<T> {
    /// The next value; `None` once all are out.
    pub fn next(&mut self) -> (r: Option<T>)
        ensures
            old(self)@.len() == 0 ==> r is None && final(self)@ == old(self)@,
            old(self)@.len() > 0 ==> r == Some(old(self)@[0]) && final(self)@ == old(
                self,
            )@.drop_first(),
    {
        self.0.pop()
    }
}

} // verus!
