//! A singly linked sequence whose nodes are carved from an arena one push
//! at a time.
//!
//! Nodes live in a table owned by the list and links are table indices, so
//! every link dereference is bounds-checked; the arena is charged for one
//! node per push and never refunded, so popped nodes simply go stale, as
//! bump-allocated nodes do. `push_front` and `push_back` are O(1) via the
//! cached tail; `pop_back` walks from the head because there is no
//! backward link.

use crate::arena::Arena;
use crate::arena::alloc_end;
use vstd::prelude::*;

verus! {

/// One link of a list: a value and the table index of its successor.
#[derive(Clone, Copy, Debug)]
pub struct Node<T> {
    pub next: Option<usize>,
    pub value: T,
}

/// A singly linked sequence over arena-carved nodes.
pub struct List<T> {
    nodes: Vec<Node<T>>,
    head: Option<usize>,
    tail: Option<usize>,
    count: usize,
    chain: Ghost<Seq<usize>>,
}

impl<T> View for List<T> {
    type V = Seq<T>;

    /// The linked values, head to tail.
    closed spec fn view(&self) -> Seq<T> {
        Seq::new(self.chain@.len() as nat, |p: int| self.nodes@[self.chain@[p] as int].value)
    }
}

impl<T> List<T> {
    /// The list's internal consistency: the ghost chain lists the live
    /// node indices head to tail, the links in the node table follow it,
    /// and head and tail cache its ends. Constructors establish it and
    /// methods preserve it.
    pub closed spec fn wf(self) -> bool {
        let c = self.chain@;
        let n = self.nodes@;
        &&& c.len() == self.count
        &&& self.count <= n.len()
        &&& forall|p: int| 0 <= p < c.len() ==> (#[trigger] c[p]) < n.len()
        &&& forall|p: int, q: int| 0 <= p < q < c.len() ==> c[p] != c[q]
        &&& if c.len() == 0 {
            self.head is None && self.tail is None
        } else {
            self.head == Some(c[0]) && self.tail == Some(c[c.len() - 1])
        }
        &&& forall|p: int|
            0 <= p < c.len() - 1 ==> n[(#[trigger] c[p]) as int].next == Some(c[p + 1])
        &&& c.len() > 0 ==> n[c[c.len() - 1] as int].next is None
    }

    /// A fresh, empty list; nodes are charged to the arena as they are
    /// pushed.
    pub fn new() -> (r: List<T>)
        ensures
            r.wf(),
            r@ == Seq::<T>::empty(),
    {
        let r = List {
            nodes: Vec::new(),
            head: None,
            tail: None,
            count: 0,
            chain: Ghost(Seq::empty()),
        };
        proof {
            assert(r@ =~= Seq::<T>::empty());
        }
        r
    }

    /// Number of linked values.
    pub fn len(&self) -> (r: usize)
        requires
            self.wf(),
        ensures
            r == self@.len(),
    {
        self.count
    }

    /// Whether nothing is linked.
    pub fn is_empty(&self) -> (r: bool)
        requires
            self.wf(),
        ensures
            r <==> self@.len() == 0,
    {
        self.count == 0
    }

    /// The head node's table index, if any.
    pub fn head(&self) -> (r: Option<usize>)
        requires
            self.wf(),
        ensures
            r is Some <==> self@.len() > 0,
    {
        self.head
    }

    /// The tail node's table index, if any.
    pub fn tail(&self) -> (r: Option<usize>)
        requires
            self.wf(),
        ensures
            r is Some <==> self@.len() > 0,
    {
        self.tail
    }

    /// The first value, if any.
    pub fn peek_head(&self) -> (r: Option<&T>)
        requires
            self.wf(),
        ensures
            self@.len() > 0 <==> r is Some,
            self@.len() > 0 ==> r == Some(&self@.first()),
    {
        match self.head {
            None => None,
            Some(h) => Some(&self.nodes[h].value),
        }
    }

    /// The last value, if any.
    pub fn peek_tail(&self) -> (r: Option<&T>)
        requires
            self.wf(),
        ensures
            self@.len() > 0 <==> r is Some,
            self@.len() > 0 ==> r == Some(&self@.last()),
    {
        match self.tail {
            None => None,
            Some(t) => Some(&self.nodes[t].value),
        }
    }

    /// Removes the first value and hands back a view of it; fails on an
    /// empty list. Emptying the list clears the cached tail too.
    pub fn pop_front(&mut self) -> (r: Option<&T>)
        requires
            old(self).wf(),
        ensures
            final(self).wf(),
            old(self)@.len() > 0 <==> r is Some,
            r is Some ==> {
                &&& r == Some(&old(self)@.first())
                &&& final(self)@ == old(self)@.drop_first()
            },
            r is None ==> final(self)@ == old(self)@,
    {
        match self.head {
            None => None,
            Some(h) => {
                self.head = self.nodes[h].next;
                if self.head.is_none() {
                    self.tail = None;
                }
                self.count = self.count - 1;
                proof {
                    self.chain@ = self.chain@.drop_first();
                }
                proof {
                    assert(self@ =~= old(self)@.drop_first());
                }
                Some(&self.nodes[h].value)
            },
        }
    }
}

impl<T: Copy> List<T> {
    /// Links one value at the front, carving one node from the arena;
    /// fails with no room left in the arena, changing nothing.
    #[verifier::rlimit(50)]
    pub fn push_front<'v>(&mut self, arena: &mut Arena, value: &'v T) -> (r: Option<&'v T>)
        requires
            old(self).wf(),
        ensures
            final(self).wf(),
            alloc_end::<Node<T>>(old(arena).spec_len(), 1) <= old(arena).spec_capacity() <==> r
                is Some,
            r is Some ==> {
                &&& r == Some(value)
                &&& final(self)@ == seq![*value] + old(self)@
                &&& final(arena).spec_len() == alloc_end::<Node<T>>(old(arena).spec_len(), 1)
            },
            r is None ==> final(self)@ == old(self)@ && final(arena).spec_len() == old(
                arena,
            ).spec_len(),
            final(arena).spec_capacity() == old(arena).spec_capacity(),
            final(arena).byte_seq() == old(arena).byte_seq(),
    {
        let room = arena.allocate::<Node<T>>(1);
        if room.is_none() {
            return None;
        }
        let idx = self.nodes.len();
        self.nodes.push(Node { next: self.head, value: *value });
        let grown = self.nodes.len();
        self.head = Some(idx);
        if self.tail.is_none() {
            self.tail = Some(idx);
        }
        self.count = self.count + 1;
        proof {
            self.chain@ = seq![idx] + self.chain@;
        }
        proof {
            assert(self@ =~= seq![*value] + old(self)@);
        }
        Some(value)
    }

    /// Links one value at the back through the cached tail, carving one
    /// node from the arena; fails with no room left in the arena, changing
    /// nothing.
    #[verifier::rlimit(50)]
    pub fn push_back<'v>(&mut self, arena: &mut Arena, value: &'v T) -> (r: Option<&'v T>)
        requires
            old(self).wf(),
        ensures
            final(self).wf(),
            alloc_end::<Node<T>>(old(arena).spec_len(), 1) <= old(arena).spec_capacity() <==> r
                is Some,
            r is Some ==> {
                &&& r == Some(value)
                &&& final(self)@ == old(self)@.push(*value)
                &&& final(arena).spec_len() == alloc_end::<Node<T>>(old(arena).spec_len(), 1)
            },
            r is None ==> final(self)@ == old(self)@ && final(arena).spec_len() == old(
                arena,
            ).spec_len(),
            final(arena).spec_capacity() == old(arena).spec_capacity(),
            final(arena).byte_seq() == old(arena).byte_seq(),
    {
        let room = arena.allocate::<Node<T>>(1);
        if room.is_none() {
            return None;
        }
        let idx = self.nodes.len();
        self.nodes.push(Node { next: None, value: *value });
        let grown = self.nodes.len();
        match self.tail {
            None => {
                self.head = Some(idx);
            },
            Some(t) => {
                let mut linked = self.nodes[t];
                linked.next = Some(idx);
                self.nodes[t] = linked;
            },
        }
        self.tail = Some(idx);
        self.count = self.count + 1;
        proof {
            self.chain@ = self.chain@.push(idx);
        }
        proof {
            assert(self@ =~= old(self)@.push(*value));
        }
        Some(value)
    }

    /// Removes the last value and hands back a view of it, walking from
    /// the head to find the new tail; fails on an empty list.
    pub fn pop_back(&mut self) -> (r: Option<&T>)
        requires
            old(self).wf(),
        ensures
            final(self).wf(),
            old(self)@.len() > 0 <==> r is Some,
            r is Some ==> {
                &&& r == Some(&old(self)@.last())
                &&& final(self)@ == old(self)@.drop_last()
            },
            r is None ==> final(self)@ == old(self)@,
    {
        match self.head {
            None => None,
            Some(h) => {
                let mut prev: Option<usize> = None;
                let mut current: usize = h;
                let ghost mut p: int = 0;
                while self.nodes[current].next.is_some()
                    invariant
                        old(self).wf(),
                        *self == *old(self),
                        0 <= p < self.count,
                        current == self.chain@[p],
                        prev == if p == 0 {
                            Option::<usize>::None
                        } else {
                            Some(self.chain@[p - 1])
                        },
                    decreases self.count - p,
                {
                    prev = Some(current);
                    match self.nodes[current].next {
                        Some(nx) => {
                            current = nx;
                        },
                        None => {
                            proof {
                                assert(false);
                            }
                        },
                    }
                    proof {
                        p = p + 1;
                    }
                }
                proof {
                    assert(p == self.count - 1);
                }
                match prev {
                    None => {
                        self.head = None;
                        self.tail = None;
                    },
                    Some(pr) => {
                        let mut unlinked = self.nodes[pr];
                        unlinked.next = None;
                        self.nodes[pr] = unlinked;
                        self.tail = Some(pr);
                    },
                }
                self.count = self.count - 1;
                proof {
                    self.chain@ = self.chain@.drop_last();
                }
                proof {
                    assert(self@ =~= old(self)@.drop_last());
                }
                Some(&self.nodes[current].value)
            },
        }
    }

    /// The linked values, copied out head to tail by following the links.
    pub fn to_vec(&self) -> (r: Vec<T>)
        requires
            self.wf(),
        ensures
            r@ == self@,
    {
        let mut out: Vec<T> = Vec::new();
        let mut current = self.head;
        let ghost mut p: int = 0;
        while current.is_some()
            invariant
                self.wf(),
                0 <= p <= self.count,
                current == if p < self.count {
                    Some(self.chain@[p])
                } else {
                    Option::<usize>::None
                },
                out@ == self@.subrange(0, p),
            decreases self.count - p,
        {
            let c = match current {
                Some(c) => c,
                None => {
                    proof {
                        assert(false);
                    }
                    0
                },
            };
            out.push(self.nodes[c].value);
            current = self.nodes[c].next;
            proof {
                p = p + 1;
                assert(out@ =~= self@.subrange(0, p));
            }
        }
        proof {
            assert(out@ =~= self@);
        }
        out
    }

    /// Consumes the list and yields a copy of its head node, if any.
    pub fn to_node(self) -> (r: Option<Node<T>>)
        requires
            self.wf(),
        ensures
            self@.len() > 0 <==> r is Some,
            self@.len() > 0 ==> r->Some_0.value == self@.first(),
    {
        Node::from_list(self)
    }
}

impl<T: Copy> Node<T> {
    /// A copy of a list's head node, if any.
    pub fn from_list(list: List<T>) -> (r: Option<Self>)
        requires
            list.wf(),
        ensures
            list@.len() > 0 <==> r is Some,
            list@.len() > 0 ==> r->Some_0.value == list@.first(),
    {
        match list.head {
            None => None,
            Some(h) => Some(list.nodes[h]),
        }
    }
}

} // verus!
