//! An arena-backed, paged accumulator of text fragments.
//!
//! Fragments are appended to the newest page while they fit; otherwise a
//! fresh page of the configured size is charged to the arena. Building
//! charges the arena once more for one contiguous region of exactly the
//! accumulated byte length and hands back the full concatenation. A
//! fragment longer than the page size is rejected rather than silently
//! truncated.

use crate::arena::Arena;
use crate::arena::alloc_end;
use crate::text::lemma_encode_utf8_concat;
use vstd::prelude::*;
use vstd::string::StringExecFns;
use vstd::string::StringSliceAdditionalSpecFns;
use vstd::utf8::encode_utf8;

verus! {

/// A paged text accumulator that finalizes into one contiguous string.
pub struct StringBuilder {
    pages: Vec<String>,
    page_size: usize,
}

impl View for StringBuilder {
    type V = Seq<char>;

    /// The accumulated text: the concatenation of all pages.
    closed spec fn view(&self) -> Seq<char> {
        self.chars_up_to(self.pages@.len() as int)
    }
}

impl StringBuilder {
    /// The characters held by the pages below `i`.
    closed spec fn chars_up_to(self, i: int) -> Seq<char>
        decreases i,
    {
        if i <= 0 {
            Seq::empty()
        } else {
            self.chars_up_to(i - 1) + self.pages@[i - 1]@
        }
    }

    /// The bytes held by the pages below `i`.
    closed spec fn bytes_up_to(self, i: int) -> nat
        decreases i,
    {
        if i <= 0 {
            0
        } else {
            self.bytes_up_to(i - 1) + encode_utf8(self.pages@[i - 1]@).len()
        }
    }

    /// The accumulated byte length over all pages.
    pub closed spec fn byte_total(self) -> nat {
        self.bytes_up_to(self.pages@.len() as int)
    }

    /// The configured page size in bytes.
    pub closed spec fn spec_page_size(self) -> nat {
        self.page_size as nat
    }

    /// The builder's internal consistency: no page holds more bytes than
    /// the configured page size. Constructors establish it and methods
    /// preserve it.
    pub closed spec fn wf(self) -> bool {
        forall|i: int|
            0 <= i < self.pages@.len() ==> encode_utf8((#[trigger] self.pages@[i])@).len()
                <= self.page_size
    }

    /// Whether the newest page still has room for `n` more bytes.
    pub closed spec fn fits_open_page(self, n: nat) -> bool {
        let np = self.pages@.len() as int;
        np > 0 && encode_utf8(self.pages@[np - 1]@).len() + n <= self.page_size
    }

    /// A fresh, empty builder; pages of `page_size` bytes are charged to
    /// the arena as fragments arrive.
    pub fn new(page_size: usize) -> (r: StringBuilder)
        ensures
            r.wf(),
            r@ == Seq::<char>::empty(),
            r.spec_page_size() == page_size,
            r.byte_total() == 0,
    {
        StringBuilder { pages: Vec::new(), page_size }
    }

    /// Appends a fragment: to the newest page when it fits there in full,
    /// else to a fresh page charged to the arena. Fails, changing nothing,
    /// when the fragment cannot fit any page, or when the arena has no
    /// room for a fresh one.
    pub fn push_str(&mut self, arena: &mut Arena, s: &str) -> (r: bool)
        requires
            old(self).wf(),
            s.spec_bytes().len() <= usize::MAX,
        ensures
            final(self).wf(),
            final(self).spec_page_size() == old(self).spec_page_size(),
            final(arena).spec_capacity() == old(arena).spec_capacity(),
            final(arena).byte_seq() == old(arena).byte_seq(),
            ({
                let n = s.spec_bytes().len();
                &&& old(self).fits_open_page(n) ==> r && final(self)@ == old(self)@ + s@
                    && final(self).byte_total() == old(self).byte_total() + n
                    && *final(arena) == *old(arena)
                &&& !old(self).fits_open_page(n) && n <= old(self).spec_page_size() ==> {
                    &&& (alloc_end::<u8>(old(arena).spec_len(), old(self).spec_page_size())
                        <= old(arena).spec_capacity()) <==> r
                    &&& r ==> final(self)@ == old(self)@ + s@
                        && final(self).byte_total() == old(self).byte_total() + n
                        && final(arena).spec_len() == alloc_end::<u8>(
                        old(arena).spec_len(),
                        old(self).spec_page_size(),
                    )
                    &&& !r ==> *final(self) == *old(self)
                        && final(arena).spec_len() == old(arena).spec_len()
                }
                &&& n > old(self).spec_page_size() ==> !r && *final(self) == *old(self)
                    && *final(arena) == *old(arena)
            }),
    {
        let n = s.len();
        let page_count = self.pages.len();
        if page_count > 0 {
            let used = self.pages[page_count - 1].as_str().len();
            if n <= self.page_size && used <= self.page_size - n {
                let mut page = match self.pages.pop() {
                    Some(p) => p,
                    None => {
                        proof {
                            assert(false);
                        }
                        String::new()
                    },
                };
                proof {
                    lemma_encode_utf8_concat(page@, s@);
                }
                page.append(s);
                self.pages.push(page);
                proof {
                    lemma_stage_frame(*old(self), *self, page_count - 1);
                    assert(self@ =~= old(self)@ + s@);
                    assert(self.byte_total() == old(self).byte_total() + s.spec_bytes().len());
                    assert forall|i: int|
                        0 <= i < self.pages@.len() implies encode_utf8(
                        (#[trigger] self.pages@[i])@).len() <= self.page_size by {
                        if i < page_count - 1 {
                            assert(self.pages@[i] == old(self).pages@[i]);
                        }
                    }
                }
                return true;
            }
            proof {
                assert(!old(self).fits_open_page(s.spec_bytes().len()));
            }
        }
        if n > self.page_size {
            return false;
        }
        let room = arena.allocate::<u8>(self.page_size);
        if room.is_none() {
            return false;
        }
        let mut page = String::new();
        proof {
            lemma_encode_utf8_concat(page@, s@);
        }
        page.append(s);
        self.pages.push(page);
        proof {
            lemma_stage_frame(*old(self), *self, page_count as int);
            assert(self.pages@[page_count as int]@ =~= s@);
            assert(self@ =~= old(self)@ + s@);
            assert(self.byte_total() == old(self).byte_total() + s.spec_bytes().len());
            assert forall|i: int|
                0 <= i < self.pages@.len() implies encode_utf8(
                (#[trigger] self.pages@[i])@).len() <= self.page_size by {
                if i < page_count as int {
                    assert(self.pages@[i] == old(self).pages@[i]);
                }
            }
        }
        true
    }

    /// Consumes the builder: charges the arena one contiguous region of
    /// exactly the accumulated byte length and hands back the
    /// concatenation of every fragment pushed, in order. Fails, leaving
    /// the arena alone, when that region does not fit.
    pub fn build(self, arena: &mut Arena) -> (r: Option<String>)
        requires
            self.wf(),
            self.byte_total() <= usize::MAX,
        ensures
            (alloc_end::<u8>(old(arena).spec_len(), self.byte_total())
                <= old(arena).spec_capacity()) <==> r is Some,
            r is Some ==> {
                &&& r->Some_0@ == self@
                &&& final(arena).spec_len() == alloc_end::<u8>(
                    old(arena).spec_len(),
                    self.byte_total(),
                )
            },
            r is None ==> final(arena).spec_len() == old(arena).spec_len(),
            final(arena).spec_capacity() == old(arena).spec_capacity(),
            final(arena).byte_seq() == old(arena).byte_seq(),
    {
        let count = self.pages.len();
        let mut total: usize = 0;
        let mut i: usize = 0;
        while i < count
            invariant
                0 <= i <= count,
                count == self.pages@.len(),
                total == self.bytes_up_to(i as int),
                self.byte_total() <= usize::MAX,
            decreases count - i,
        {
            proof {
                lemma_bytes_monotone(self, i + 1, count as int);
            }
            let page_len = self.pages[i].as_str().len();
            total = total + page_len;
            i = i + 1;
        }
        let room = arena.allocate::<u8>(total);
        if room.is_none() {
            return None;
        }
        let mut acc = String::new();
        let mut j: usize = 0;
        while j < count
            invariant
                0 <= j <= count,
                count == self.pages@.len(),
                acc@ == self.chars_up_to(j as int),
            decreases count - j,
        {
            acc.append(self.pages[j].as_str());
            j = j + 1;
        }
        Some(acc)
    }
}

/// Page totals only grow with the bound.
proof fn lemma_bytes_monotone(b: StringBuilder, i: int, j: int)
    requires
        0 <= i <= j,
    ensures
        b.bytes_up_to(i) <= b.bytes_up_to(j),
    decreases j,
{
    if i < j {
        lemma_bytes_monotone(b, i, j - 1);
    }
}

/// A builder whose pages agree below `i` accumulates the same characters
/// and bytes below `i`.
proof fn lemma_stage_frame(pre: StringBuilder, post: StringBuilder, i: int)
    requires
        forall|q: int| 0 <= q < i ==> pre.pages@[q] == post.pages@[q],
        i <= pre.pages@.len(),
        i <= post.pages@.len(),
    ensures
        post.chars_up_to(i) == pre.chars_up_to(i),
        post.bytes_up_to(i) == pre.bytes_up_to(i),
    decreases i,
{
    if i > 0 {
        lemma_stage_frame(pre, post, i - 1);
    }
}

} // verus!
