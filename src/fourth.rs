//! A doubly linked deque. Its nodes live in an arena that the deque owns
//! and refer to their neighbours by index, so forward and backward links
//! never form a cycle of owners: removing a node is a matter of relinking
//! indices and releasing the node's slot.

use vstd::prelude::*;

verus! {

/// The deque: an arena of nodes and the indices of its two ends. The chain
/// of nodes from the head runs through `next`, and back from the tail
/// through `prev`.
pub struct List<T> {
    nodes: Vec<Node<T>>,
    head: Option<usize>,
    tail: Option<usize>,
    /// The arena indices of the nodes, head first.
    order: Ghost<Seq<usize>>,
}

/// One element, with the arena indices of its neighbours.
#[derive(Debug)]
pub struct Node<T> {
    payload: T,
    next: Option<usize>,
    prev: Option<usize>,
}

/// `Some(s[i])` when `i` is an index of `s`, `None` otherwise.
pub open spec fn at(s: Seq<usize>, i: int) -> Option<usize> {
    if 0 <= i < s.len() {
        Some(s[i])
    } else {
        None
    }
}

/// `o` lists each of the slots `0..n` exactly once.
spec fn perm(o: Seq<usize>, n: nat) -> bool {
    &&& o.len() == n
    &&& n <= usize::MAX
    &&& forall|i: int| 0 <= i < n ==> #[trigger] o[i] < n
    &&& forall|i: int, j: int| 0 <= i < j < n ==> o[i] != o[j]
    &&& forall|k: usize| k < n ==> #[trigger] o.contains(k)
}

/// `o` lists every slot of `nodes` once, and the links of each node name
/// the slots listed just before and after it.
#[verifier::opaque]
spec fn chain<T>(nodes: Seq<Node<T>>, o: Seq<usize>) -> bool {
    let n = nodes.len();
    &&& perm(o, n)
    &&& forall|i: int|
        #![trigger nodes[o[i] as int]]
        0 <= i < n ==> nodes[o[i] as int].next == at(o, i + 1) && nodes[o[i] as int].prev == at(
            o,
            i - 1,
        )
}

/// Slot `j` of an arena after the node in slot `last` has moved to slot `h`.
spec fn moved(j: usize, last: usize, h: usize) -> usize {
    if j == last {
        h
    } else {
        j
    }
}

/// The order `o` without its first slot `h`, once the node of the last slot
/// has moved into `h`.
spec fn order_after_pop(o: Seq<usize>) -> Seq<usize> {
    Seq::new((o.len() - 1) as nat, |i: int| moved(o[i + 1], (o.len() - 1) as usize, o[0]))
}

impl<T> Node<T> {
    /// The value the node holds.
    pub closed spec fn value(&self) -> T {
        self.payload
    }

    /// The arena index of the node after this one, if any.
    pub closed spec fn next_link(&self) -> Option<usize> {
        self.next
    }

    /// The arena index of the node before this one, if any.
    pub closed spec fn prev_link(&self) -> Option<usize> {
        self.prev
    }

    /// A node holding `payload`, linked to nothing.
    pub fn new(payload: T) -> (r: Self)
        ensures
            r.value() == payload,
            r.next_link() is None,
            r.prev_link() is None,
    {
        Node { payload, next: None, prev: None }
    }
}

impl<T> List<T> {
    /// The index of the head node, if any.
    pub closed spec fn head_link(&self) -> Option<usize> {
        self.head
    }

    /// The index of the tail node, if any.
    pub closed spec fn tail_link(&self) -> Option<usize> {
        self.tail
    }

    /// Every arena slot holds exactly one node of the chain; the ends are the
    /// first and last of the chain; and each node's links name the nodes just
    /// before and after it, so that the `next` chain and the `prev` chain
    /// mirror each other.
    pub closed spec fn wf(&self) -> bool {
        let o = self.order@;
        &&& chain(self.nodes@, o)
        &&& self.head == at(o, 0)
        &&& self.tail == at(o, o.len() - 1)
    }
}

impl<T> View for List<T> {
    type V = Seq<T>;

    /// The values of the deque, head first.
    closed spec fn view(&self) -> Seq<T> {
        Seq::new(self.order@.len(), |i: int| self.nodes@[self.order@[i] as int].payload)
    }
}

impl<T> List<T> {
    /// An empty deque.
    pub fn new() -> (r: Self)
        ensures
            r.wf(),
            r@ == Seq::<T>::empty(),
            r.head_link() is None,
            r.tail_link() is None,
    {
        proof {
            reveal(chain);
        }
        List { nodes: Vec::new(), head: None, tail: None, order: Ghost(Seq::empty()) }
    }

    /// Puts `payload` at the front.
    pub fn push_front(&mut self, payload: T)
        requires
            old(self).wf(),
            old(self)@.len() < usize::MAX,
        ensures
            final(self).wf(),
            final(self)@ == seq![payload] + old(self)@,
            old(self)@.len() == 0 ==> final(self).head_link() is Some && final(self).head_link()
                == final(self).tail_link(),
            old(self)@.len() > 0 ==> final(self).tail_link() == old(self).tail_link(),
    {
        proof {
            reveal(chain);
        }
        let k = self.nodes.len();
        let ghost o = self.order@;
        let mut node = Node::new(payload);
        node.next = self.head;
        self.nodes.push(node);
        match self.head {
            Some(h) => {
                self.nodes[h].prev = Some(k);
            },
            None => {
                self.tail = Some(k);
            },
        }
        self.head = Some(k);
        self.order = Ghost(seq![k] + o);
        proof {
            let no = self.order@;
            assert forall|i: int| 0 <= i < no.len() implies #[trigger] no[i] < no.len() by {
                if i > 0 {
                    assert(no[i] == o[i - 1]);
                }
            }
            assert forall|i: int| 0 < i < no.len() implies no[i] == o[i - 1] by {}
            assert forall|i: int, j: int| 0 <= i < j < no.len() implies no[i] != no[j] by {
                if i > 0 {
                    assert(no[i] == o[i - 1]);
                }
                assert(no[j] == o[j - 1]);
            }
            assert forall|i: int| 0 <= i < no.len() implies self.nodes@[no[i] as int].next == at(
                no,
                i + 1,
            ) && self.nodes@[no[i] as int].prev == at(no, i - 1) by {
                if i > 0 {
                    assert(no[i] == o[i - 1]);
                    if i > 1 {
                        assert(o[i - 1] != o[0]);
                    }
                }
            }
            assert forall|m: usize| m < no.len() implies #[trigger] no.contains(m) by {
                if m < k {
                    assert(o.contains(m));
                    let i = choose|i: int| 0 <= i < o.len() && o[i] == m;
                    assert(no[i + 1] == m);
                } else {
                    assert(no[0] == m);
                }
            }
            assert(self@ =~= seq![self.nodes@[k as int].payload] + old(self)@);
        }
    }

    /// Takes the front value off; `None`, with the deque unchanged, when it
    /// is empty. The removed node is unlinked from its neighbour before its
    /// slot is released.
    pub fn pop_front(&mut self) -> (r: Option<T>)
        requires
            old(self).wf(),
        ensures
            final(self).wf(),
            old(self)@.len() == 0 ==> r is None && final(self)@ == old(self)@,
            old(self)@.len() > 0 ==> r == Some(old(self)@[0]) && final(self)@ == old(
                self,
            )@.drop_first(),
            old(self)@.len() == 1 ==> final(self).head_link() is None && final(self).tail_link() is None,
            old(self)@.len() > 1 ==> final(self).head_link() is Some,
            old(self)@.len() > 1 ==> final(self).tail_link() == if old(self).tail_link() == Some(
                (old(self)@.len() - 1) as usize,
            ) {
                old(self).head_link()
            } else {
                old(self).tail_link()
            },
    {
        match self.head {
            None => None,
            Some(h) => {
                let ghost o = self.order@;
                let ghost old_nodes = self.nodes@;
                proof {
                    lemma_front(old_nodes, o);
                }
                let nh = self.nodes[h].next;
                match nh {
                    Some(x) => {
                        self.nodes[x].prev = None;
                        self.head = Some(x);
                    },
                    None => {
                        self.head = None;
                        self.tail = None;
                    },
                }
                let ghost a = self.nodes@;
                let last = self.nodes.len() - 1;
                proof {
                    lemma_unlinked_front(old_nodes, o, a);
                }
                let node = self.nodes.swap_remove(h);
                let ghost b = self.nodes@;
                if h < last {
                    let p = self.nodes[h].prev;
                    let q = self.nodes[h].next;
                    match p {
                        Some(pi) => {
                            self.nodes[pi].next = Some(h);
                        },
                        None => {
                            self.head = Some(h);
                        },
                    }
                    match q {
                        Some(qi) => {
                            self.nodes[qi].prev = Some(h);
                        },
                        None => {
                            self.tail = Some(h);
                        },
                    }
                }
                proof {
                    let c = self.nodes@;
                    assert forall|s: int|
                        #![trigger c[s]]
                        0 <= s < c.len() implies c[s].payload
                        == b[s].payload && c[s].next == (if h < last && a[last as int].prev
                        == Some(s as usize) {
                        Some(h)
                    } else {
                        b[s].next
                    }) && c[s].prev == (if h < last && a[last as int].next == Some(s as usize) {
                        Some(h)
                    } else {
                        b[s].prev
                    }) by {}
                    lemma_relinked(old_nodes, o, a, b, c);
                }
                self.order = Ghost(order_after_pop(o));
                proof {
                    assert(self@ =~= old(self)@.drop_first());
                }
                Some(node.payload)
            },
        }
    }
}

impl<T> List<T> {
    /// The slots met from slot `from` by following `next` links, at most
    /// `steps` of them.
    pub closed spec fn walk_next(&self, from: Option<usize>, steps: nat) -> Seq<usize>
        decreases steps,
    {
        if steps == 0 {
            Seq::empty()
        } else {
            match from {
                None => Seq::empty(),
                Some(k) => seq![k] + self.walk_next(self.nodes@[k as int].next, (steps - 1) as nat),
            }
        }
    }

    /// The slots met from slot `from` by following `prev` links, at most
    /// `steps` of them.
    pub closed spec fn walk_prev(&self, from: Option<usize>, steps: nat) -> Seq<usize>
        decreases steps,
    {
        if steps == 0 {
            Seq::empty()
        } else {
            match from {
                None => Seq::empty(),
                Some(k) => seq![k] + self.walk_prev(self.nodes@[k as int].prev, (steps - 1) as nat),
            }
        }
    }

    /// The values met walking the `next` links from the head.
    pub closed spec fn forward(&self) -> Seq<T> {
        self.walk_next(self.head, self.nodes@.len()).map_values(
            |k: usize| self.nodes@[k as int].payload,
        )
    }

    /// The values met walking the `prev` links from the tail.
    pub closed spec fn backward(&self) -> Seq<T> {
        self.walk_prev(self.tail, self.nodes@.len()).map_values(
            |k: usize| self.nodes@[k as int].payload,
        )
    }

    proof fn lemma_walk_next(&self, i: int)
        requires
            self.wf(),
            0 <= i < self.order@.len(),
        ensures
            self.walk_next(Some(self.order@[i]), (self.order@.len() - i) as nat)
                == self.order@.subrange(i, self.order@.len() as int),
        decreases self.order@.len() - i,
    {
        reveal(chain);
        let o = self.order@;
        let n = o.len();
        assert(self.nodes@[o[i] as int].next == at(o, i + 1));
        if i + 1 < n {
            self.lemma_walk_next(i + 1);
            assert(o.subrange(i, n as int) =~= seq![o[i]] + o.subrange(i + 1, n as int));
        } else {
            assert(o.subrange(i, n as int) =~= seq![o[i]]);
            assert(self.walk_next(None, 0) == Seq::<usize>::empty());
            assert(seq![o[i]] + Seq::<usize>::empty() =~= seq![o[i]]);
        }
    }

    proof fn lemma_walk_prev(&self, i: int)
        requires
            self.wf(),
            0 <= i < self.order@.len(),
        ensures
            self.walk_prev(Some(self.order@[i]), (i + 1) as nat) == self.order@.subrange(
                0,
                i + 1,
            ).reverse(),
        decreases i,
    {
        reveal(chain);
        let o = self.order@;
        assert(self.nodes@[o[i] as int].prev == at(o, i - 1));
        if i > 0 {
            self.lemma_walk_prev(i - 1);
            assert(o.subrange(0, i + 1).reverse() =~= seq![o[i]] + o.subrange(0, i).reverse());
        } else {
            assert(self.walk_prev(None, 0) == Seq::<usize>::empty());
            assert(o.subrange(0, 1).reverse() =~= seq![o[0]]);
            assert(seq![o[0]] + Seq::<usize>::empty() =~= seq![o[0]]);
        }
    }

    /// Walking the `next` links from the head meets the values of the deque
    /// in order, and walking the `prev` links from the tail meets the same
    /// values in reverse order.
    pub proof fn lemma_mirror(&self)
        requires
            self.wf(),
        ensures
            self.forward() == self@,
            self.backward() == self@.reverse(),
    {
        reveal(chain);
        let o = self.order@;
        let n = o.len();
        if n > 0 {
            self.lemma_walk_next(0);
            self.lemma_walk_prev(n - 1);
            assert(o.subrange(0, n as int) =~= o);
        }
        assert(self.forward() =~= self@);
        assert(self.backward() =~= self@.reverse());
    }

    /// A well-formed deque has no head, and no tail, exactly when it holds
    /// no values, as a new one does.
    pub proof fn lemma_emptied(&self)
        requires
            self.wf(),
        ensures
            self.head_link() is None <==> self@.len() == 0,
            self.tail_link() is None <==> self@.len() == 0,
    {
    }
}

/// What the front of a chain looks like: its first slot and the one after.
proof fn lemma_front<T>(nodes: Seq<Node<T>>, o: Seq<usize>)
    requires
        chain(nodes, o),
        o.len() >= 1,
    ensures
        o[0] < nodes.len(),
        nodes[o[0] as int].next == at(o, 1),
        o.len() >= 2 ==> o[1] < nodes.len(),
{
    reveal(chain);
    assert(o[0] < nodes.len());
    if o.len() >= 2 {
        assert(o[1] < nodes.len());
    }
}

/// Where the links of a chain stand once its front slot `o[0]` has been
/// unlinked from the slot after it: every other slot keeps its value and
/// its links, but the new front no longer looks back.
proof fn lemma_unlinked_front<T>(old_nodes: Seq<Node<T>>, o: Seq<usize>, a: Seq<Node<T>>)
    requires
        chain(old_nodes, o),
        o.len() >= 1,
        o.len() >= 2 ==> a == old_nodes.update(
            o[1] as int,
            Node { prev: None, ..old_nodes[o[1] as int] },
        ),
        o.len() == 1 ==> a == old_nodes,
    ensures
        perm(o, a.len()),
        front_unlinked(old_nodes, o, a),
        o[0] < a.len() - 1 ==> (a[a.len() - 1].prev matches Some(p) ==> p < a.len() - 1 && p
            != o[0]),
        o[0] < a.len() - 1 ==> (a[a.len() - 1].next matches Some(q) ==> q < a.len() - 1 && q
            != o[0]),
        o.len() >= 2 ==> at(order_after_pop(o), 0) == if o[0] < a.len() - 1 && a[a.len()
            - 1].prev is None {
            Some(o[0])
        } else {
            Some(o[1])
        },
        o.len() >= 2 ==> at(order_after_pop(o), o.len() - 2) == if o[0] < a.len() - 1 && a[a.len()
            - 1].next is None {
            Some(o[0])
        } else {
            Some(o[o.len() - 1])
        },
        o.len() == 1 ==> order_after_pop(o).len() == 0,
{
    reveal(chain);
    let n = o.len();
    let last = (n - 1) as usize;
    assert(o.contains(last));
    let m = choose|m: int| 0 <= m < n && o[m] == last;
    if n >= 2 {
        assert(o[1] != o[0]);
        assert(o[n - 1] != o[0]);
        assert(a[o[1] as int].prev is None);
        assert(a[o[n - 1] as int].next is None);
        if o[1] != last && o[0] < last {
            assert(m >= 2);
            assert(a[o[m] as int].prev == at(o, m - 1));
        }
        if o[n - 1] != last && o[0] < last {
            assert(m + 1 < n);
            assert(a[o[m] as int].next == at(o, m + 1));
        }
    }
    if o[0] < last {
        assert(m != 0);
        if m >= 2 {
            assert(o[m - 1] != o[m]);
            assert(o[m - 1] != o[0]);
            assert(o[m - 1] < n);
        }
        if m + 1 < n {
            assert(o[m + 1] != o[m]);
            assert(o[m + 1] != o[0]);
            assert(o[m + 1] < n);
        }
    }
    assert forall|i: int| 1 <= i < o.len() implies #[trigger] o[i] != o[0] by {}
    assert forall|i: int| 2 <= i < o.len() implies #[trigger] o[i] != o[1] by {}
}

/// Every slot of `o` but the first keeps in `a` the value it had in
/// `old_nodes` and links to its neighbours in `o`, except that the slot
/// `o[1]` has no `prev` link.
spec fn front_unlinked<T>(old_nodes: Seq<Node<T>>, o: Seq<usize>, a: Seq<Node<T>>) -> bool {
    forall|i: int|
        #![trigger a[o[i] as int]]
        1 <= i < o.len() ==> o[i] != o[0] && a[o[i] as int].next == at(o, i + 1) && a[o[i] as int].prev
            == (if i == 1 {
            None
        } else {
            at(o, i - 1)
        }) && a[o[i] as int].payload == old_nodes[o[i] as int].payload
}

/// `order_after_pop(o)` lists each of the slots `0..n - 1` once.
proof fn lemma_order_after_pop(o: Seq<usize>)
    requires
        o.len() >= 1,
        perm(o, o.len()),
    ensures
        perm(order_after_pop(o), (o.len() - 1) as nat),
        forall|i: int|
            0 <= i < o.len() - 1 ==> #[trigger] order_after_pop(o)[i] == moved(
                o[i + 1],
                (o.len() - 1) as usize,
                o[0],
            ),
{
    let n = o.len();
    let h = o[0];
    let last = (n - 1) as usize;
    let o2 = order_after_pop(o);
    assert(o.contains(last));
    let m = choose|m: int| 0 <= m < n && o[m] == last;
    assert forall|i: int| 0 <= i < n - 1 implies #[trigger] o2[i] < n - 1 by {
        assert(o[i + 1] != o[0]);
        assert(o[i + 1] < n);
        if o[i + 1] == last {
            assert(m != 0);
            assert(h != last);
        }
    }
    assert forall|i: int, j: int| 0 <= i < j < n - 1 implies o2[i] != o2[j] by {
        assert(o[i + 1] != o[j + 1]);
        assert(o[i + 1] != h);
        assert(o[j + 1] != h);
    }
    assert forall|k: usize| k < n - 1 implies #[trigger] o2.contains(k) by {
        if k == h {
            assert(h != last);
            assert(m != 0);
            assert(o2[m - 1] == moved(o[m], last, h));
        } else {
            assert(o.contains(k));
            let i = choose|i: int| 0 <= i < n && o[i] == k;
            assert(i != 0);
            assert(o2[i - 1] == moved(o[i], last, h));
        }
    }
}

/// Once the node of the last slot has moved into the freed slot of the
/// front node and its neighbours have been pointed at it, the remaining
/// nodes form the chain `order_after_pop(o)`, each keeping its value.
proof fn lemma_relinked<T>(
    old_nodes: Seq<Node<T>>,
    o: Seq<usize>,
    a: Seq<Node<T>>,
    b: Seq<Node<T>>,
    c: Seq<Node<T>>,
)
    requires
        o.len() >= 1,
        perm(o, a.len()),
        front_unlinked(old_nodes, o, a),
        b == a.update(o[0] as int, a.last()).drop_last(),
        c.len() == b.len(),
        forall|s: int|
            #![trigger c[s]]
            0 <= s < c.len() ==> c[s].payload == b[s].payload && c[s].next == (if o[0]
                < a.len() - 1 && a[a.len() - 1].prev == Some(s as usize) {
                Some(o[0])
            } else {
                b[s].next
            }) && c[s].prev == (if o[0] < a.len() - 1 && a[a.len() - 1].next == Some(
                s as usize,
            ) {
                Some(o[0])
            } else {
                b[s].prev
            }),
    ensures
        chain(c, order_after_pop(o)),
        forall|i: int|
            0 <= i < o.len() - 1 ==> c[#[trigger] order_after_pop(o)[i] as int].payload
                == old_nodes[o[i + 1] as int].payload,
{
    reveal(chain);
    let n = o.len();
    let o2 = order_after_pop(o);
    let last = (n - 1) as usize;
    lemma_order_after_pop(o);
    assert(o.contains(last));
    let m = choose|m: int| 0 <= m < n && o[m] == last;
    assert forall|i: int|
        #![trigger o2[i]]
        0 <= i < n - 1 implies c[o2[i] as int].next == at(o2, i + 1) && c[o2[i] as int].prev == at(
            o2,
            i - 1,
        ) && c[o2[i] as int].payload == old_nodes[o[i + 1] as int].payload by {
        lemma_relinked_at(old_nodes, o, a, b, c, m, i);
    }
}

/// The links of the `i`-th node of `order_after_pop(o)`, where `m` is the
/// place in `o` of the node that moved.
#[verifier::rlimit(40)]
proof fn lemma_relinked_at<T>(
    old_nodes: Seq<Node<T>>,
    o: Seq<usize>,
    a: Seq<Node<T>>,
    b: Seq<Node<T>>,
    c: Seq<Node<T>>,
    m: int,
    i: int,
)
    requires
        o.len() >= 1,
        perm(o, a.len()),
        front_unlinked(old_nodes, o, a),
        b == a.update(o[0] as int, a.last()).drop_last(),
        c.len() == b.len(),
        forall|s: int|
            #![trigger c[s]]
            0 <= s < c.len() ==> c[s].payload == b[s].payload && c[s].next == (if o[0]
                < a.len() - 1 && a[a.len() - 1].prev == Some(s as usize) {
                Some(o[0])
            } else {
                b[s].next
            }) && c[s].prev == (if o[0] < a.len() - 1 && a[a.len() - 1].next == Some(
                s as usize,
            ) {
                Some(o[0])
            } else {
                b[s].prev
            }),
        0 <= m < o.len(),
        o[m] == o.len() - 1,
        0 <= i < o.len() - 1,
        perm(order_after_pop(o), (o.len() - 1) as nat),
        forall|j: int|
            0 <= j < o.len() - 1 ==> #[trigger] order_after_pop(o)[j] == moved(
                o[j + 1],
                (o.len() - 1) as usize,
                o[0],
            ),
    ensures
        c[order_after_pop(o)[i] as int].next == at(order_after_pop(o), i + 1),
        c[order_after_pop(o)[i] as int].prev == at(order_after_pop(o), i - 1),
        c[order_after_pop(o)[i] as int].payload == old_nodes[o[i + 1] as int].payload,
{
    let n = o.len();
    let h = o[0];
    let last = (n - 1) as usize;
    let o2 = order_after_pop(o);
    let k = o[i + 1];
    let sl = o2[i];
    assert(k != h);
    assert(k < n);
    assert(sl == moved(k, last, h));
    assert(b[sl as int] == a[k as int]) by {
        if k == last {
            assert(i + 1 == m);
        }
    }
    assert(a[k as int].next == at(o, i + 2));
    assert(a[k as int].prev == if i == 0 {
        None
    } else {
        at(o, i)
    });
    assert(m >= 1 ==> o[m] != h);
    if h != last {
        assert(m != 0);
        assert(a[last as int].prev == if m == 1 {
            None
        } else {
            Some(o[m - 1])
        });
        assert(a[last as int].next == at(o, m + 1));
        if m >= 2 {
            assert(o[m - 1] != h);
        }
    }
    assert(o2.len() == n - 1);
    assert(k != last ==> sl == k);
    assert(k == last ==> sl == h && m == i + 1);
    if i + 2 < n {
        assert(o2[i + 1] == moved(o[i + 2], last, h));
        assert(o[i + 2] != h);
        assert(at(o2, i + 1) == Some(o2[i + 1]));
        assert(a[k as int].next == Some(o[i + 2]));
        if o[i + 2] == last {
            assert(m == i + 2);
            assert(k != last);
            assert(a[last as int].prev == Some(k));
            assert(c[sl as int].next == Some(h));
        } else {
            if h < last && a[last as int].prev == Some(sl) {
                assert(m >= 2);
                assert(o[m - 1] == sl);
                if k == last {
                    assert(o[m - 1] != h);
                } else {
                    assert(m - 1 == i + 1);
                }
            }
            assert(c[sl as int].next == b[sl as int].next);
        }
    } else {
        assert(at(o2, i + 1) is None);
        assert(a[k as int].next is None);
        if h < last && a[last as int].prev == Some(sl) {
            assert(m >= 2);
            assert(o[m - 1] == sl);
            if k == last {
                assert(o[m - 1] != h);
            } else {
                assert(m - 1 == i + 1);
            }
        }
    }
    assert(c[sl as int].next == at(o2, i + 1));
    if i >= 1 {
        assert(o2[i - 1] == moved(o[i], last, h));
        assert(o[i] != h);
        assert(at(o2, i - 1) == Some(o2[i - 1]));
        assert(a[k as int].prev == Some(o[i]));
        if o[i] == last {
            assert(m == i);
            assert(k != last);
            assert(a[last as int].next == Some(k));
            assert(c[sl as int].prev == Some(h));
        } else {
            if h < last && a[last as int].next == Some(sl) {
                assert(m + 1 < n);
                assert(o[m + 1] == sl);
                if k == last {
                    assert(o[m + 1] != h);
                } else {
                    assert(m + 1 == i + 1);
                }
            }
            assert(c[sl as int].prev == b[sl as int].prev);
        }
    } else {
        assert(at(o2, i - 1) is None);
        assert(a[k as int].prev is None);
        if h < last && a[last as int].next == Some(sl) {
            assert(m + 1 < n);
            assert(o[m + 1] == sl);
            if k == last {
                assert(o[m + 1] != h);
            } else {
                assert(m + 1 == i + 1);
            }
        }
    }
    assert(c[sl as int].prev == at(o2, i - 1));
}

} // verus!
