//! A fixed-capacity growable sequence over one up-front allocation.
//!
//! The backing storage is sized once, at construction, from a caller-provided
//! buffer; `push` beyond the capacity fails and changes nothing. The live
//! elements are the prefix `[0, len)`; slots past `len` keep whatever bytes
//! they had, as arena-backed storage does.

use vstd::prelude::*;
use vstd::std_specs::cmp::PartialEqSpec;

verus! {

/// A bounded growable sequence: at most `capacity` elements, stored in the
/// prefix of a buffer fixed at construction.
pub struct Array<T> {
    storage: Vec<T>,
    len: usize,
}

impl<T> View for Array<T> {
    type V = Seq<T>;

    /// The live elements, in order.
    closed spec fn view(&self) -> Seq<T> {
        self.storage@.subrange(0, self.len as int)
    }
}

impl<T> Array<T> {
    /// The fixed capacity.
    pub closed spec fn spec_capacity(self) -> nat {
        self.storage@.len()
    }

    /// The whole backing buffer, live prefix and unused tail alike.
    pub closed spec fn full_seq(self) -> Seq<T> {
        self.storage@
    }

    #[verifier::type_invariant]
    spec fn wf(self) -> bool {
        self.len <= self.storage@.len()
    }

    /// Number of live elements.
    pub fn len(&self) -> (r: usize)
        ensures
            r == self@.len(),
            self@.len() <= self.spec_capacity(),
    {
        proof {
            use_type_invariant(self);
        }
        self.len
    }

    /// Whether no element is live.
    pub fn is_empty(&self) -> (r: bool)
        ensures
            r <==> self@.len() == 0,
    {
        proof {
            use_type_invariant(self);
        }
        self.len == 0
    }

    /// The fixed capacity.
    pub fn capacity(&self) -> (r: usize)
        ensures
            r == self.spec_capacity(),
    {
        self.storage.len()
    }

    /// The whole backing buffer as a slice.
    pub fn buffer(&self) -> (r: &[T])
        ensures
            r@ == self.full_seq(),
    {
        self.storage.as_slice()
    }

    /// The live elements as a slice.
    pub fn as_slice(&self) -> (r: &[T])
        ensures
            r@ == self@,
    {
        proof {
            use_type_invariant(self);
        }
        self.storage.as_slice().split_at(self.len).0
    }

    /// The live element at `index`, if any.
    pub fn get(&self, index: usize) -> (r: Option<&T>)
        ensures
            index < self@.len() <==> r is Some,
            index < self@.len() ==> r == Some(&self@[index as int]),
    {
        proof {
            use_type_invariant(self);
        }
        if index < self.len {
            Some(&self.storage[index])
        } else {
            None
        }
    }

    /// Forgets all live elements; the buffer itself is untouched.
    pub fn clear(&mut self)
        ensures
            final(self)@ == Seq::<T>::empty(),
            final(self).spec_capacity() == old(self).spec_capacity(),
            final(self).full_seq() == old(self).full_seq(),
    {
        proof {
            use_type_invariant(&*self);
        }
        self.len = 0;
        proof {
            assert(self@ =~= Seq::<T>::empty());
        }
    }
}

impl<T: Copy> Array<T> {
    /// A fresh, empty array whose capacity and initial buffer contents come
    /// from the caller's buffer.
    pub fn new(buffer: &mut [T]) -> (r: Array<T>)
        ensures
            r@ == Seq::<T>::empty(),
            r.spec_capacity() == old(buffer)@.len(),
            r.full_seq() == old(buffer)@,
            final(buffer)@ == old(buffer)@,
    {
        let storage = vstd::slice::slice_to_vec(buffer);
        let r = Array { storage, len: 0 };
        proof {
            assert(r@ =~= Seq::<T>::empty());
        }
        r
    }

    /// Appends one element if a slot is free; a push at capacity fails and
    /// alters nothing.
    pub fn push<'a>(&mut self, value: &'a T) -> (r: Option<&'a T>)
        ensures
            old(self)@.len() < old(self).spec_capacity() <==> r is Some,
            r is Some ==> {
                &&& final(self)@ == old(self)@.push(*value)
                &&& r == Some(value)
            },
            r is None ==> final(self)@ == old(self)@,
            final(self).spec_capacity() == old(self).spec_capacity(),
    {
        proof {
            use_type_invariant(&*self);
        }
        if self.len < self.storage.len() {
            self.storage[self.len] = *value;
            self.len = self.len + 1;
            proof {
                assert(self@ =~= old(self)@.push(*value));
            }
            Some(value)
        } else {
            None
        }
    }

    /// Removes the last live element and hands back a view of it; fails on
    /// an empty array.
    pub fn pop(&mut self) -> (r: Option<&T>)
        ensures
            old(self)@.len() > 0 <==> r is Some,
            r is Some ==> {
                &&& final(self)@ == old(self)@.drop_last()
                &&& r == Some(&old(self)@.last())
            },
            r is None ==> final(self)@ == old(self)@,
            final(self).spec_capacity() == old(self).spec_capacity(),
    {
        proof {
            use_type_invariant(&*self);
        }
        if self.len > 0 {
            self.len = self.len - 1;
            proof {
                assert(self@ =~= old(self)@.drop_last());
            }
            Some(&self.storage[self.len])
        } else {
            None
        }
    }

    /// Appends a whole slice atomically: either every element fits and the
    /// length grows by the slice's length, or nothing is appended.
    pub fn concat(&mut self, other: &[T]) -> (r: Option<&[T]>)
        ensures
            old(self)@.len() + other@.len() <= old(self).spec_capacity() <==> r is Some,
            r is Some ==> {
                &&& final(self)@ == old(self)@ + other@
                &&& r->Some_0@ == final(self)@
            },
            r is None ==> final(self)@ == old(self)@,
            final(self).spec_capacity() == old(self).spec_capacity(),
    {
        proof {
            use_type_invariant(&*self);
        }
        let cap = self.storage.len();
        if other.len() <= cap - self.len {
            let mut i: usize = 0;
            proof {
                assert(self@ =~= old(self)@ + other@.subrange(0, 0));
            }
            while i < other.len()
                invariant
                    0 <= i <= other@.len(),
                    self.len == old(self).len + i,
                    self.storage@.len() == cap,
                    old(self).storage@.len() == cap,
                    old(self).len + other@.len() <= cap,
                    self@ == old(self)@ + other@.subrange(0, i as int),
                decreases other@.len() - i,
            {
                self.storage[self.len] = other[i];
                proof {
                    assert(self.storage@.subrange(0, self.len as int) =~= old(self)@
                        + other@.subrange(0, i as int));
                }
                self.len = self.len + 1;
                i = i + 1;
                proof {
                    assert(self@ =~= old(self)@ + other@.subrange(0, i as int));
                }
            }
            proof {
                assert(other@.subrange(0, other@.len() as int) =~= other@);
            }
            Some(self.as_slice())
        } else {
            None
        }
    }

    /// Places one element at `index`, shifting the elements at and after it
    /// one slot to the right. Fails past the length, or at capacity.
    pub fn insert<'a>(&mut self, index: usize, value: &'a T) -> (r: Option<&'a T>)
        ensures
            (index <= old(self)@.len() && old(self)@.len() < old(self).spec_capacity()) <==> r
                is Some,
            r is Some ==> {
                &&& final(self)@ == old(self)@.insert(index as int, *value)
                &&& r == Some(value)
            },
            r is None ==> final(self)@ == old(self)@,
            final(self).spec_capacity() == old(self).spec_capacity(),
    {
        proof {
            use_type_invariant(&*self);
        }
        if index <= self.len && self.len < self.storage.len() {
            let mut i: usize = self.len;
            while i > index
                invariant
                    index <= i <= self.len,
                    self.len < self.storage@.len(),
                    self.storage@.len() == old(self).storage@.len(),
                    self.len == old(self).len,
                    index <= self.len,
                    forall|j: int|
                        0 <= j < i ==> self.storage@[j] == old(self).storage@[j],
                    forall|j: int|
                        i < j <= self.len ==> self.storage@[j] == old(self).storage@[j - 1],
                decreases i,
            {
                let shifted = self.storage[i - 1];
                self.storage[i] = shifted;
                i = i - 1;
            }
            self.storage[index] = *value;
            self.len = self.len + 1;
            proof {
                assert(self@ =~= old(self)@.insert(index as int, *value));
            }
            Some(value)
        } else {
            None
        }
    }

    /// Removes the element at `index`, shifting the elements after it one
    /// slot to the left. Fails at or past the length.
    pub fn remove(&mut self, index: usize) -> (r: Option<T>)
        ensures
            index < old(self)@.len() <==> r is Some,
            r is Some ==> {
                &&& final(self)@ == old(self)@.remove(index as int)
                &&& r == Some(old(self)@[index as int])
            },
            r is None ==> final(self)@ == old(self)@,
            final(self).spec_capacity() == old(self).spec_capacity(),
    {
        proof {
            use_type_invariant(&*self);
        }
        if index < self.len {
            let value = self.storage[index];
            let mut i: usize = index;
            while i < self.len - 1
                invariant
                    index <= i <= self.len - 1,
                    0 < self.len <= self.storage@.len(),
                    self.storage@.len() == old(self).storage@.len(),
                    self.len == old(self).len,
                    forall|j: int|
                        0 <= j < i ==> self.storage@[j] == (if j < index {
                            old(self).storage@[j]
                        } else {
                            old(self).storage@[j + 1]
                        }),
                    forall|j: int|
                        i <= j < self.storage@.len() ==> self.storage@[j] == old(
                            self,
                        ).storage@[j],
                decreases self.len - i,
            {
                let shifted = self.storage[i + 1];
                self.storage[i] = shifted;
                i = i + 1;
            }
            self.len = self.len - 1;
            proof {
                assert(self@ =~= old(self)@.remove(index as int));
            }
            Some(value)
        } else {
            None
        }
    }

    /// Overwrites the live element at `index`.
    pub fn set(&mut self, index: usize, value: &T)
        requires
            index < old(self)@.len(),
        ensures
            final(self)@ == old(self)@.update(index as int, *value),
            final(self).spec_capacity() == old(self).spec_capacity(),
    {
        proof {
            use_type_invariant(&*self);
        }
        self.storage[index] = *value;
        proof {
            assert(self@ =~= old(self)@.update(index as int, *value));
        }
    }

    /// The live elements, copied out in order.
    pub fn to_vec(&self) -> (r: Vec<T>)
        ensures
            r@ == self@,
    {
        proof {
            use_type_invariant(self);
        }
        vstd::slice::slice_to_vec(self.as_slice())
    }
}

impl<T: PartialEq> Array<T> {
    /// Whether some live element compares equal to `value`.
    pub fn contains(&self, value: &T) -> (r: bool)
        ensures
            T::obeys_eq_spec() ==> (r <==> exists|i: int|
                0 <= i < self@.len() && #[trigger] self@[i].eq_spec(value)),
    {
        proof {
            use_type_invariant(self);
        }
        let mut i: usize = 0;
        while i < self.len
            invariant
                0 <= i <= self.len <= self.storage@.len(),
                T::obeys_eq_spec() ==> forall|j: int|
                    0 <= j < i ==> !(#[trigger] self@[j].eq_spec(value)),
            decreases self.len - i,
        {
            if self.storage[i] == *value {
                proof {
                    if T::obeys_eq_spec() {
                        assert(self@[i as int] == self.storage@[i as int]);
                        assert(self@[i as int].eq_spec(value));
                    }
                }
                return true;
            }
            i = i + 1;
        }
        false
    }
}

} // verus!
