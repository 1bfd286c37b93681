//! A linear, never-freeing allocator over a fixed memory region, used once
//! at boot to carve storage for the frame allocator's bitmaps.

use vstd::prelude::*;
use crate::align::Alignment;
use crate::align::spec_align_up;

verus! {

use vstd::arithmetic::div_mod::lemma_mod_bound;
use vstd::arithmetic::div_mod::lemma_fundamental_div_mod;
use vstd::arithmetic::div_mod::lemma_mod_multiples_basic;
use vstd::arithmetic::power2::lemma_pow2_pos;

/// Hands out bytes from the front of a region, never taking them back.
pub struct BumpAllocator {
    buffer: u64,
    len: u64,
}

impl BumpAllocator {
    /// Where the next allocation would start.
    pub closed spec fn cursor(self) -> int {
        self.buffer as int
    }

    /// How many bytes are left.
    pub closed spec fn left(self) -> int {
        self.len as int
    }

    /// The region stays within the address space.
    pub closed spec fn wf(self) -> bool {
        self.buffer + self.len <= u64::MAX
    }

    /// An allocator over the `len` bytes starting at `buffer`.
    pub fn new(buffer: u64, len: u64) -> (r: BumpAllocator)
        requires
            buffer + len <= u64::MAX,
        ensures
            r.wf(),
            r.cursor() == buffer,
            r.left() == len,
    {
        BumpAllocator { buffer, len }
    }

    /// How many bytes are left.
    pub fn remaining(&self) -> (r: u64)
        ensures
            r == self.left(),
    {
        self.len
    }

    /// Consumes `amt` bytes, which must be there.
    fn advance(&mut self, amt: u64)
        requires
            old(self).wf(),
            amt <= old(self).left(),
        ensures
            final(self).wf(),
            final(self).cursor() == old(self).cursor() + amt,
            final(self).left() == old(self).left() - amt,
    {
        self.buffer = self.buffer + amt;
        self.len = self.len - amt;
    }

    /// Hands out `size` bytes and returns where they start.
    pub fn alloc_bytes(&mut self, size: u64) -> (r: u64)
        requires
            old(self).wf(),
            size <= old(self).left(),
        ensures
            final(self).wf(),
            r == old(self).cursor(),
            final(self).cursor() == old(self).cursor() + size,
            final(self).left() == old(self).left() - size,
    {
        let res = self.buffer;
        self.advance(size);
        res
    }

    /// How many bytes of padding the next allocation at `align` would skip.
    pub fn align_offset(&self, align: Alignment) -> (r: u64)
        requires
            align.wf(),
        ensures
            r < align.size_spec(),
            r == self.align_offset_spec(align),
            (self.cursor() + r) % (align.size_spec() as int) == 0,
    {
        proof {
            lemma_pow2_pos(align.sh());
            lemma_mod_bound(self.buffer as int, align.size_spec() as int);
        }
        let off = align.align_up_offset(self.buffer);
        proof {
            let m = align.size_spec() as int;
            let a = self.buffer as int;
            lemma_fundamental_div_mod(a, m);
            if a % m != 0 {
                assert(a + off == m * (a / m) + m);
                assert((m * (a / m) + m) % m == 0) by {
                    lemma_mod_multiples_basic(a / m + 1, m);
                    assert(m * (a / m) + m == (a / m + 1) * m) by (nonlinear_arith);
                }
            } else {
                lemma_mod_multiples_basic(a / m, m);
                assert(a == (a / m) * m) by (nonlinear_arith)
                    requires
                        a == m * (a / m) + a % m,
                        a % m == 0,
                ;
            }
        }
        off
    }

    /// Skips ahead to the next `align` boundary, which must be in range.
    pub fn align(&mut self, align: Alignment)
        requires
            old(self).wf(),
            align.wf(),
            old(self).align_offset_spec(align) <= old(self).left(),
        ensures
            final(self).wf(),
            final(self).cursor() % (align.size_spec() as int) == 0,
            final(self).cursor() == old(self).cursor() + old(self).align_offset_spec(align),
            old(self).cursor() <= final(self).cursor() < old(self).cursor() + align.size_spec(),
            final(self).left() == old(self).left() - old(self).align_offset_spec(align),
    {
        let off = self.align_offset(align);
        self.advance(off);
    }

    /// Skips ahead to the next boundary of the given alignment.
    pub fn align_to(&mut self, align: Alignment)
        requires
            old(self).wf(),
            align.wf(),
            old(self).align_offset_spec(align) <= old(self).left(),
        ensures
            final(self).wf(),
            final(self).cursor() % (align.size_spec() as int) == 0,
            final(self).cursor() == old(self).cursor() + old(self).align_offset_spec(align),
            old(self).cursor() <= final(self).cursor() < old(self).cursor() + align.size_spec(),
            final(self).left() == old(self).left() - old(self).align_offset_spec(align),
    {
        self.align(align);
    }

    /// Hands out `size` bytes at the given alignment and returns where they
    /// start.
    pub fn alloc_layout(&mut self, size: u64, align: Alignment) -> (r: u64)
        requires
            old(self).wf(),
            align.wf(),
            old(self).align_offset_spec(align) + size <= old(self).left(),
        ensures
            final(self).wf(),
            (r as int) % (align.size_spec() as int) == 0,
            old(self).cursor() <= r < old(self).cursor() + align.size_spec(),
            final(self).cursor() == r + size,
    {
        self.align(align);
        self.alloc_bytes(size)
    }

    /// Hands out `len` items of `size` bytes each at the given alignment.
    pub fn alloc_slice_layout(&mut self, size: u64, align: Alignment, len: u64) -> (r: u64)
        requires
            old(self).wf(),
            align.wf(),
            size * len <= u64::MAX,
            old(self).align_offset_spec(align) + size * len <= old(self).left(),
        ensures
            final(self).wf(),
            (r as int) % (align.size_spec() as int) == 0,
            old(self).cursor() <= r < old(self).cursor() + align.size_spec(),
            final(self).cursor() == r + size * len,
    {
        self.alloc_layout(size * len, align)
    }

    /// How many items of `size` bytes at `align` still fit.
    pub fn max_allocs_of_layout(&self, size: u64, align: Alignment) -> (r: u64)
        requires
            self.wf(),
            align.wf(),
            size >= 1,
        ensures
            self.align_offset_spec(align) <= self.left() ==> r == (self.left()
                - self.align_offset_spec(align)) / (size as int),
            self.align_offset_spec(align) > self.left() ==> r == 0,
    {
        let align_offset = self.align_offset(align);
        let remaining = self.remaining();
        if remaining < align_offset {
            return 0;
        }
        (remaining - align_offset) / size
    }

    /// The padding the next allocation at `align` would skip.
    pub open spec fn align_offset_spec(self, align: Alignment) -> int {
        spec_align_up(self.cursor(), align.size_spec() as int) - self.cursor()
    }

    /// Where the next allocation would start.
    pub fn curr_ptr(&self) -> (r: u64)
        ensures
            r == self.cursor(),
    {
        self.buffer
    }

    /// Where the region ends: everything before it is carved out.
    pub fn done_ptr(&self) -> (r: u64)
        requires
            self.wf(),
        ensures
            r == self.cursor(),
    {
        self.buffer
    }

    /// Consumes the rest of the region and returns where it started.
    pub fn rest(self) -> (r: (u64, u64))
        requires
            self.wf(),
        ensures
            r.0 == self.cursor(),
            r.1 == self.left(),
    {
        (self.buffer, self.len)
    }

    /// Finishes carving: returns the cursor at which allocation stopped.
    pub fn done(self) -> (r: u64)
        requires
            self.wf(),
        ensures
            r == self.cursor(),
    {
        self.buffer
    }
}

} // verus!
