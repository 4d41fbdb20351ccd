//! The memory region at the root of all allocation, and the bump-pointer
//! arenas carved from it.
//!
//! A `MemoryBlock` owns a fixed region of zero-initialized bytes and a
//! monotone high-water mark separating carved from free bytes. An `Arena`
//! owns the byte range carved for it and serves allocation requests by
//! advancing a cursor, with alignment-aware placement; it never grows and
//! never returns memory.

use vstd::prelude::*;
use vstd::string::StringExecFns;
use vstd::string::StringSliceAdditionalSpecFns;

verus! {

/// One fixed-capacity region of bytes, the root of all allocation.
///
/// The high-water mark only ever moves forward, so carved ranges never
/// overlap; a carve that would pass the capacity fails and changes nothing.
pub struct MemoryBlock {
    bytes: Vec<u8>,
    mark: usize,
}

/// A bump allocator over a byte range carved from a [`MemoryBlock`].
///
/// The cursor `len` separates allocated from free bytes. Allocation only
/// ever advances the cursor; `clear` rewinds it to zero without touching
/// the bytes.
pub struct Arena {
    bytes: Vec<u8>,
    cursor: usize,
}

impl MemoryBlock {
    /// Total capacity of the region in bytes.
    pub closed spec fn spec_capacity(self) -> nat {
        self.bytes@.len()
    }

    /// The high-water mark: bytes below it have been carved into arenas.
    pub closed spec fn spec_len(self) -> nat {
        self.mark as nat
    }

    /// The region's bytes.
    pub closed spec fn byte_seq(self) -> Seq<u8> {
        self.bytes@
    }

    #[verifier::type_invariant]
    spec fn wf(self) -> bool {
        self.mark <= self.bytes@.len()
    }

    /// Creates a block owning `capacity` zero-initialized bytes.
    pub fn with_capacity(capacity: usize) -> (b: MemoryBlock)
        ensures
            b.spec_capacity() == capacity,
            b.spec_len() == 0,
            b.byte_seq() == Seq::new(capacity as nat, |i: int| 0u8),
    {
        let bytes = zeroed_bytes(capacity);
        proof {
            assert(bytes@ =~= Seq::new(capacity as nat, |i: int| 0u8));
        }
        MemoryBlock { bytes, mark: 0 }
    }

    /// Number of bytes already carved into arenas: arenas carved from a
    /// block of size `C` total at most `C` bytes.
    pub fn len(&self) -> (r: usize)
        ensures
            r == self.spec_len(),
            self.spec_len() <= self.spec_capacity(),
    {
        proof {
            use_type_invariant(self);
        }
        self.mark
    }

    /// Total capacity in bytes.
    pub fn capacity(&self) -> (r: usize)
        ensures
            r == self.spec_capacity(),
    {
        self.bytes.len()
    }

    /// The whole region as a slice.
    pub fn buffer(&self) -> (r: &[u8])
        ensures
            r@ == self.byte_seq(),
    {
        self.bytes.as_slice()
    }

    /// Overwrites one byte of the region, as a bounds-checked stand-in for
    /// indexed writes into the raw region.
    pub fn set_byte(&mut self, index: usize, value: u8)
        requires
            index < old(self).spec_capacity(),
        ensures
            final(self).byte_seq() == old(self).byte_seq().update(index as int, value),
            final(self).spec_len() == old(self).spec_len(),
            final(self).spec_capacity() == old(self).spec_capacity(),
    {
        proof {
            use_type_invariant(&*self);
        }
        self.bytes[index] = value;
    }

    /// Carves `size` bytes at the high-water mark into a fresh arena.
    ///
    /// Succeeds exactly when `size` fits between the mark and the capacity;
    /// the mark then advances by `size` and the arena starts zeroed with an
    /// empty cursor. On failure the block is unchanged.
    pub fn arena(&mut self, size: usize) -> (r: Option<Arena>)
        ensures
            old(self).spec_len() + size <= old(self).spec_capacity() <==> r is Some,
            r is Some ==> {
                &&& final(self).spec_len() == old(self).spec_len() + size
                &&& r->Some_0.spec_capacity() == size
                &&& r->Some_0.spec_len() == 0
                &&& r->Some_0.byte_seq() == Seq::new(size as nat, |i: int| 0u8)
            },
            r is None ==> *final(self) == *old(self),
            final(self).spec_capacity() == old(self).spec_capacity(),
            final(self).byte_seq() == old(self).byte_seq(),
    {
        proof {
            use_type_invariant(&*self);
        }
        if size <= self.bytes.len() - self.mark {
            self.mark = self.mark + size;
            let bytes = zeroed_bytes(size);
            proof {
                assert(bytes@ =~= Seq::new(size as nat, |i: int| 0u8));
            }
            Some(Arena { bytes, cursor: 0 })
        } else {
            None
        }
    }

    /// The carved and the free part of the region, in that order.
    pub fn split(&self) -> (r: (&[u8], &[u8]))
        ensures
            r.0@ == self.byte_seq().subrange(0, self.spec_len() as int),
            r.1@ == self.byte_seq().subrange(self.spec_len() as int, self.spec_capacity() as int),
    {
        proof {
            use_type_invariant(self);
        }
        self.bytes.as_slice().split_at(self.mark)
    }

    /// The carved part of the region.
    pub fn allocated(&self) -> (r: &[u8])
        ensures
            r@ == self.byte_seq().subrange(0, self.spec_len() as int),
    {
        self.split().0
    }
}

impl Arena {
    /// Capacity of the arena's byte range.
    pub closed spec fn spec_capacity(self) -> nat {
        self.bytes@.len()
    }

    /// The cursor: bytes below it have been handed out.
    pub closed spec fn spec_len(self) -> nat {
        self.cursor as nat
    }

    /// The arena's bytes.
    pub closed spec fn byte_seq(self) -> Seq<u8> {
        self.bytes@
    }

    #[verifier::type_invariant]
    spec fn wf(self) -> bool {
        self.cursor <= self.bytes@.len()
    }

    /// Number of bytes handed out so far, never more than the capacity.
    pub fn len(&self) -> (r: usize)
        ensures
            r == self.spec_len(),
            self.spec_len() <= self.spec_capacity(),
    {
        proof {
            use_type_invariant(self);
        }
        self.cursor
    }

    /// Total capacity in bytes.
    pub fn capacity(&self) -> (r: usize)
        ensures
            r == self.spec_capacity(),
    {
        self.bytes.len()
    }

    /// The whole byte range as a slice.
    pub fn buffer(&self) -> (r: &[u8])
        ensures
            r@ == self.byte_seq(),
    {
        self.bytes.as_slice()
    }

    /// Overwrites one byte of the range, as a bounds-checked stand-in for
    /// indexed writes into the raw range.
    pub fn set_byte(&mut self, index: usize, value: u8)
        requires
            index < old(self).spec_capacity(),
        ensures
            final(self).byte_seq() == old(self).byte_seq().update(index as int, value),
            final(self).spec_len() == old(self).spec_len(),
            final(self).spec_capacity() == old(self).spec_capacity(),
    {
        proof {
            use_type_invariant(&*self);
        }
        self.bytes[index] = value;
    }

    /// Repositions the cursor, accepted only up to the capacity.
    pub fn seek(&mut self, offset: usize) -> (r: bool)
        ensures
            r <==> offset <= old(self).spec_capacity(),
            r ==> final(self).spec_len() == offset,
            !r ==> final(self).spec_len() == old(self).spec_len(),
            final(self).spec_capacity() == old(self).spec_capacity(),
            final(self).byte_seq() == old(self).byte_seq(),
    {
        proof {
            use_type_invariant(&*self);
        }
        if offset <= self.bytes.len() {
            self.cursor = offset;
            true
        } else {
            false
        }
    }

    /// Rewinds the cursor to zero and reports its previous position.
    ///
    /// This is a logical reset only: the bytes are not rezeroed, so stale
    /// contents remain until overwritten.
    pub fn clear(&mut self) -> (r: usize)
        ensures
            r == old(self).spec_len(),
            final(self).spec_len() == 0,
            final(self).spec_capacity() == old(self).spec_capacity(),
            final(self).byte_seq() == old(self).byte_seq(),
    {
        proof {
            use_type_invariant(&*self);
        }
        let previous = self.cursor;
        self.cursor = 0;
        previous
    }

    /// The handed-out and the free part of the range, in that order.
    pub fn split(&self) -> (r: (&[u8], &[u8]))
        ensures
            r.0@ == self.byte_seq().subrange(0, self.spec_len() as int),
            r.1@ == self.byte_seq().subrange(self.spec_len() as int, self.spec_capacity() as int),
    {
        proof {
            use_type_invariant(self);
        }
        self.bytes.as_slice().split_at(self.cursor)
    }

    /// The handed-out part of the range.
    pub fn allocated(&self) -> (r: &[u8])
        ensures
            r@ == self.byte_seq().subrange(0, self.spec_len() as int),
    {
        self.split().0
    }
}

/// The next position at or after `pos` that is a multiple of `align`.
pub open spec fn align_up(pos: nat, align: nat) -> nat
    recommends
        align > 0,
{
    if pos % align == 0 {
        pos
    } else {
        (pos + (align - pos % align)) as nat
    }
}

/// Where an arena's cursor stands after granting room for `count` values
/// of type `T` from position `len`.
pub open spec fn alloc_end<T>(len: nat, count: nat) -> nat {
    align_up(len, vstd::layout::align_of::<T>()) + vstd::layout::size_of::<T>() * count
}

impl Arena {
    /// Hands out room for `count` values of type `T`, placed at the next
    /// offset aligned for `T` past the cursor.
    ///
    /// Succeeds exactly when the aligned offset plus the requested bytes
    /// fits in the capacity; the cursor then advances past the new room and
    /// the aligned offset is returned. On failure the arena is unchanged.
    pub fn allocate<T>(&mut self, count: usize) -> (r: Option<usize>)
        ensures
            ({
                let offset = align_up(old(self).spec_len(), vstd::layout::align_of::<T>());
                &&& (offset + vstd::layout::size_of::<T>() * count <= old(self).spec_capacity())
                    <==> r is Some
                &&& r is Some ==> r->Some_0 == offset && final(self).spec_len() == offset
                    + vstd::layout::size_of::<T>() * count
                &&& r is None ==> final(self).spec_len() == old(self).spec_len()
            }),
            final(self).spec_capacity() == old(self).spec_capacity(),
            final(self).byte_seq() == old(self).byte_seq(),
    {
        proof {
            use_type_invariant(&*self);
            broadcast use vstd::layout::align_nonzero;
        }
        let size = core::mem::size_of::<T>();
        let align = core::mem::align_of::<T>();
        let cap = self.bytes.len();
        let rem = self.cursor % align;
        let pad = if rem == 0 {
            0
        } else {
            align - rem
        };
        if pad > cap - self.cursor {
            return None;
        }
        let offset = self.cursor + pad;
        if size > 0 && count > (cap - offset) / size {
            proof {
                let room = (cap - offset) as int;
                let s = size as int;
                vstd::arithmetic::div_mod::lemma_fundamental_div_mod(room, s);
                vstd::arithmetic::div_mod::lemma_mod_bound(room, s);
                assert(s * (count as int) > room) by (nonlinear_arith)
                    requires
                        count as int > room / s,
                        room == s * (room / s) + room % s,
                        0 <= room % s,
                        s > 0,
                ;
            }
            return None;
        }
        if size == 0 {
            self.cursor = offset;
            return Some(offset);
        }
        proof {
            let room = (cap - offset) as int;
            let s = size as int;
            vstd::arithmetic::div_mod::lemma_fundamental_div_mod(room, s);
            vstd::arithmetic::div_mod::lemma_mod_bound(room, s);
            assert(s * (count as int) <= room) by (nonlinear_arith)
                requires
                    count as int <= room / s,
                    room == s * (room / s) + room % s,
                    0 <= room % s < s,
                    s > 0,
            ;
        }
        let need = size * count;
        self.cursor = offset + need;
        Some(offset)
    }

    /// Charges the arena's free bytes for a text fragment: on success the
    /// cursor advances past the fragment's bytes and one terminator byte,
    /// and the fragment is handed back as an owned immutable string. The
    /// region's bytes themselves are only accounted for, not rewritten.
    ///
    /// Fails, leaving the cursor alone, when the fragment plus its
    /// terminator does not fit strictly below the free byte count. An empty
    /// fragment that does fit yields nothing, though the terminator byte is
    /// still consumed.
    pub fn alloc_str(&mut self, s: &str) -> (r: Option<String>)
        requires
            s.spec_bytes().len() + 1 <= usize::MAX,
        ensures
            ({
                let n = s.spec_bytes().len();
                &&& (0 < n && old(self).spec_len() + n + 1 < old(self).spec_capacity()) <==> r
                    is Some
                &&& r is Some ==> r->Some_0@ == s@
                    && final(self).spec_len() == old(self).spec_len() + n + 1
                &&& (n == 0 && old(self).spec_len() + 1 < old(self).spec_capacity())
                    ==> final(self).spec_len() == old(self).spec_len() + 1
                &&& old(self).spec_len() + n + 1 >= old(self).spec_capacity()
                    ==> final(self).spec_len() == old(self).spec_len()
            }),
            final(self).spec_capacity() == old(self).spec_capacity(),
            final(self).byte_seq() == old(self).byte_seq(),
    {
        proof {
            use_type_invariant(&*self);
        }
        let remaining = self.bytes.len() - self.cursor;
        let mut sink = StrSink::new(remaining);
        let ok = sink.write_str(s);
        if ok {
            let used = sink.used();
            let target = self.cursor + used + 1;
            let _ = self.seek(target);
            sink.as_str()
        } else {
            None
        }
    }
}

/// A vector of `n` zero bytes.
fn zeroed_bytes(n: usize) -> (r: Vec<u8>)
    ensures
        r@.len() == n,
        forall|i: int| 0 <= i < n ==> r@[i] == 0u8,
{
    let mut bytes: Vec<u8> = Vec::new();
    while bytes.len() < n
        invariant
            bytes@.len() <= n,
            forall|i: int| 0 <= i < bytes@.len() ==> bytes@[i] == 0u8,
        decreases n - bytes@.len(),
    {
        bytes.push(0u8);
    }
    bytes
}

/// A bounded sink for text fragments, the accumulation half of formatted
/// string allocation: fragments are appended while they fit under the byte
/// budget, and the accumulated text is surrendered at the end.
pub struct StrSink {
    content: String,
    used: usize,
    budget: usize,
}

impl StrSink {
    /// The text accumulated by successful writes.
    pub closed spec fn view_chars(self) -> Seq<char> {
        self.content@
    }

    /// Bytes accumulated by successful writes so far.
    pub closed spec fn spec_used(self) -> nat {
        self.used as nat
    }

    /// The byte budget the sink was created with.
    pub closed spec fn spec_budget(self) -> nat {
        self.budget as nat
    }

    /// A sink over a byte budget of `budget` bytes.
    pub fn new(budget: usize) -> (s: StrSink)
        ensures
            s.view_chars() == Seq::<char>::empty(),
            s.spec_used() == 0,
            s.spec_budget() == budget,
    {
        StrSink { content: String::new(), used: 0, budget }
    }

    /// Bytes consumed so far.
    pub fn used(&self) -> (r: usize)
        ensures
            r == self.spec_used(),
    {
        self.used
    }

    /// Appends a fragment if the budget still has room for it and one
    /// terminator byte. A fragment that does not fit is refused outright
    /// and the sink is left unchanged, so a smaller fragment may still
    /// succeed afterwards.
    pub fn write_str(&mut self, s: &str) -> (r: bool)
        requires
            s.spec_bytes().len() <= usize::MAX,
        ensures
            r <==> old(self).spec_used() + s.spec_bytes().len() + 1 < old(self).spec_budget(),
            r ==> {
                &&& final(self).view_chars() == old(self).view_chars() + s@
                &&& final(self).spec_used() == old(self).spec_used() + s.spec_bytes().len()
            },
            !r ==> *final(self) == *old(self),
            final(self).spec_budget() == old(self).spec_budget(),
    {
        let n = s.len();
        if self.used < self.budget && self.budget - self.used > n && self.budget - self.used - n
            > 1 {
            self.content.append(s);
            self.used = self.used + n;
            true
        } else {
            false
        }
    }

    /// Surrenders the accumulated text: the full concatenation of all
    /// fragments if every write fit and at least one byte was written,
    /// nothing otherwise.
    pub fn as_str(self) -> (r: Option<String>)
        ensures
            r is Some <==> 0 < self.spec_used() && self.spec_used() + 1 < self.spec_budget(),
            r is Some ==> r->Some_0@ == self.view_chars(),
    {
        if self.used != 0 && self.used < self.budget && 1 < self.budget - self.used {
            Some(self.content)
        } else {
            None
        }
    }
}

} // verus!
