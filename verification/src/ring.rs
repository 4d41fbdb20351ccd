//! A fixed-capacity circular buffer over caller-provided backing storage.
//!
//! `push` always succeeds: on a full buffer it overwrites the oldest
//! element, as a best-effort streaming buffer should. Fullness is tracked
//! by an explicit flag because equal read and write indices are ambiguous
//! between empty and full.

use vstd::prelude::*;
use vstd::arithmetic::div_mod::lemma_mod_self_0;
use vstd::arithmetic::div_mod::lemma_mod_multiples_vanish;
use vstd::arithmetic::div_mod::lemma_small_mod;

verus! {

/// A circular bounded queue; the view lists the readable elements oldest
/// first.
pub struct RingBuffer<T> {
    storage: Vec<T>,
    read: usize,
    write: usize,
    full: bool,
}

impl<T> View for RingBuffer<T> {
    type V = Seq<T>;

    /// The readable elements, oldest first.
    closed spec fn view(&self) -> Seq<T> {
        Seq::new(
            self.spec_count(),
            |k: int|
                if self.read + k < self.storage@.len() {
                    self.storage@[self.read + k]
                } else {
                    self.storage@[self.read + k - self.storage@.len()]
                },
        )
    }
}

impl<T> RingBuffer<T> {
    /// The fixed capacity.
    pub closed spec fn spec_capacity(self) -> nat {
        self.storage@.len()
    }

    /// The position the next `pop` reads from.
    pub closed spec fn spec_read(self) -> nat {
        self.read as nat
    }

    /// The position the next `push` writes to.
    pub closed spec fn spec_write(self) -> nat {
        self.write as nat
    }

    spec fn spec_count(self) -> nat {
        if self.full {
            self.storage@.len()
        } else if self.write >= self.read {
            (self.write - self.read) as nat
        } else {
            (self.storage@.len() - (self.read - self.write)) as nat
        }
    }

    #[verifier::type_invariant]
    spec fn wf(self) -> bool {
        &&& self.storage@.len() == 0 ==> self.read == 0 && self.write == 0 && !self.full
        &&& self.storage@.len() > 0 ==> self.read < self.storage@.len() && self.write
            < self.storage@.len()
        &&& self.full ==> self.read == self.write
    }

    /// Number of readable elements, never more than the capacity: the
    /// write-read distance modulo the capacity, or the capacity itself
    /// when the buffer is full, in which case the indices coincide.
    pub fn len(&self) -> (r: usize)
        ensures
            r == self@.len(),
            self@.len() <= self.spec_capacity(),
            self.spec_capacity() > 0 && self@.len() < self.spec_capacity() ==> self@.len() == (
            self.spec_write() + self.spec_capacity() - self.spec_read()) % (
            self.spec_capacity() as int),
            self.spec_capacity() > 0 && self@.len() == self.spec_capacity() ==> self.spec_read()
                == self.spec_write(),
    {
        proof {
            use_type_invariant(self);
            lemma_len_distance(self);
        }
        if self.full {
            self.storage.len()
        } else if self.write >= self.read {
            self.write - self.read
        } else {
            self.storage.len() - (self.read - self.write)
        }
    }

    /// The fixed capacity.
    pub fn capacity(&self) -> (r: usize)
        ensures
            r == self.spec_capacity(),
    {
        self.storage.len()
    }

    /// The position the next `pop` reads from.
    pub fn read_index(&self) -> (r: usize)
        ensures
            r == self.spec_read(),
            self.spec_capacity() > 0 ==> r < self.spec_capacity(),
    {
        proof {
            use_type_invariant(self);
        }
        self.read
    }

    /// The position the next `push` writes to.
    pub fn write_index(&self) -> (r: usize)
        ensures
            r == self.spec_write(),
            self.spec_capacity() > 0 ==> r < self.spec_capacity(),
    {
        proof {
            use_type_invariant(self);
        }
        self.write
    }

    /// Whether nothing is readable: the buffer is not full and the read
    /// and write indices coincide.
    pub fn is_empty(&self) -> (r: bool)
        ensures
            r <==> self@.len() == 0,
            r <==> (self@.len() < self.spec_capacity() || self.spec_capacity() == 0)
                && self.spec_read() == self.spec_write(),
    {
        proof {
            use_type_invariant(self);
        }
        !self.full && self.read == self.write
    }

    /// Whether a push would overwrite the oldest element. On a buffer with
    /// any capacity at all this holds exactly when `len` reaches the
    /// capacity.
    pub fn is_full(&self) -> (r: bool)
        ensures
            r ==> self@.len() == self.spec_capacity() && self.spec_capacity() > 0,
            self.spec_capacity() > 0 ==> (r <==> self@.len() == self.spec_capacity()),
    {
        proof {
            use_type_invariant(self);
        }
        self.full
    }
}

impl<T: Copy> RingBuffer<T> {
    /// A fresh, empty ring buffer whose capacity and backing storage come
    /// from the caller's buffer.
    pub fn new(buffer: &mut [T]) -> (r: RingBuffer<T>)
        ensures
            r@ == Seq::<T>::empty(),
            r.spec_capacity() == old(buffer)@.len(),
            r.spec_read() == 0,
            r.spec_write() == 0,
            final(buffer)@ == old(buffer)@,
    {
        let storage = vstd::slice::slice_to_vec(buffer);
        let r = RingBuffer { storage, read: 0, write: 0, full: false };
        proof {
            assert(r@ =~= Seq::<T>::empty());
        }
        r
    }

    /// Writes one element, evicting the oldest element first when the
    /// buffer is full; a push never fails.
    pub fn push(&mut self, value: T)
        requires
            old(self).spec_capacity() > 0,
        ensures
            old(self)@.len() < old(self).spec_capacity() ==> final(self)@ == old(self)@.push(
                value,
            ),
            old(self)@.len() == old(self).spec_capacity() ==> final(self)@ == old(
                self,
            )@.drop_first().push(value),
            final(self)@.len() <= final(self).spec_capacity(),
            final(self).spec_capacity() == old(self).spec_capacity(),
            final(self).spec_write() == (old(self).spec_write() + 1) % old(self).spec_capacity(),
            old(self)@.len() == old(self).spec_capacity() ==> final(self).spec_read() == (old(
                self,
            ).spec_read() + 1) % old(self).spec_capacity(),
            old(self)@.len() < old(self).spec_capacity() ==> final(self).spec_read() == old(
                self,
            ).spec_read(),
    {
        proof {
            use_type_invariant(&*self);
        }
        let cap = self.storage.len();
        self.storage[self.write] = value;
        let was_full = self.full;
        self.full = false;
        if was_full {
            proof {
                lemma_wrap_incr(self.read as nat, cap as nat);
            }
            self.read = (self.read + 1) % cap;
        }
        proof {
            lemma_wrap_incr(self.write as nat, cap as nat);
        }
        self.write = (self.write + 1) % cap;
        self.full = self.write == self.read;
        proof {
            if old(self).full {
                assert(self@ =~= old(self)@.drop_first().push(value));
            } else {
                assert(self@ =~= old(self)@.push(value));
            }
        }
    }

    /// Removes and yields the oldest element; fails when nothing is
    /// readable.
    pub fn pop(&mut self) -> (r: Option<T>)
        ensures
            old(self)@.len() > 0 <==> r is Some,
            r is Some ==> {
                &&& r == Some(old(self)@.first())
                &&& final(self)@ == old(self)@.drop_first()
                &&& final(self).spec_read() == (old(self).spec_read() + 1) % old(
                    self,
                ).spec_capacity()
            },
            r is None ==> *final(self) == *old(self),
            final(self).spec_capacity() == old(self).spec_capacity(),
            final(self).spec_write() == old(self).spec_write(),
    {
        proof {
            use_type_invariant(&*self);
        }
        if !self.full && self.read == self.write {
            return None;
        }
        let cap = self.storage.len();
        let value = self.storage[self.read];
        self.full = false;
        proof {
            lemma_wrap_incr(self.read as nat, cap as nat);
        }
        self.read = (self.read + 1) % cap;
        proof {
            assert(self@ =~= old(self)@.drop_first());
        }
        Some(value)
    }
}


/// The readable count of a consistent buffer with positive capacity is the
/// write-read distance modulo the capacity, or the capacity when full.
proof fn lemma_len_distance<T>(rb: &RingBuffer<T>)
    requires
        rb.wf(),
    ensures
        rb.spec_capacity() > 0 && rb@.len() < rb.spec_capacity() ==> rb@.len() == (rb.spec_write()
            + rb.spec_capacity() - rb.spec_read()) % (rb.spec_capacity() as int),
        rb.spec_capacity() > 0 && rb@.len() == rb.spec_capacity() ==> rb.spec_read()
            == rb.spec_write(),
{
    let cap = rb.spec_capacity() as int;
    let r = rb.spec_read() as int;
    let w = rb.spec_write() as int;
    if cap > 0 && rb@.len() < rb.spec_capacity() {
        assert(!rb.full);
        if w >= r {
            lemma_mod_multiples_vanish(1, w - r, cap);
            lemma_small_mod((w - r) as nat, cap as nat);
        } else {
            lemma_small_mod((w + cap - r) as nat, cap as nat);
        }
    }
}

/// `(x + 1) % m` wraps to zero exactly at `m`.
proof fn lemma_wrap_incr(x: nat, m: nat)
    requires
        m > 0,
        x < m,
    ensures
        (x + 1) % m == if x + 1 < m {
            (x + 1) as int
        } else {
            0
        },
{
    if x + 1 < m {
        lemma_small_mod((x + 1) as nat, m);
    } else {
        broadcast use lemma_mod_self_0;

    }
}

} // verus!
