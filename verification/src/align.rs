//! Power-of-two alignments and the rounding arithmetic on them.

use vstd::prelude::*;

verus! {

use vstd::arithmetic::power2::pow2;
use vstd::arithmetic::power2::lemma_pow2_pos;
use vstd::bits::low_bits_mask;
use vstd::bits::lemma_u64_low_bits_mask_is_mod;
use vstd::bits::lemma_u64_pow2_no_overflow;
use vstd::bits::lemma_u64_shl_is_mul;
use vstd::arithmetic::div_mod::lemma_mod_bound;
use vstd::arithmetic::div_mod::lemma_mod_decreases;

/// A power-of-two alignment, stored as the exponent of the block size.
#[derive(Clone, Copy, Debug)]
pub struct Alignment {
    shift: u64,
}

impl Alignment {
    /// The exponent: an alignment stands for blocks of `pow2(self.sh())` bytes.
    pub closed spec fn sh(self) -> nat {
        self.shift as nat
    }

    /// The block size the alignment stands for.
    pub open spec fn size_spec(self) -> nat {
        pow2(self.sh())
    }

    /// Valid alignments keep the block size within `u64`.
    pub closed spec fn wf(self) -> bool {
        self.shift < 64
    }

    /// The alignment whose block size is `n`, which must be a power of two.
    pub fn new(n: u64) -> (r: Alignment)
        requires
            exists|k: nat| k < 64 && n == pow2(k),
        ensures
            r.wf(),
            r.size_spec() == n,
    {
        let mut shift: u64 = 0;
        proof {
            let k = choose|k: nat| k < 64 && n == pow2(k);
            lemma_u64_pow2_no_overflow(k);
        }
        while (1u64 << shift) != n
            invariant
                shift < 64,
                exists|k: nat| k < 64 && n == pow2(k),
                forall|j: nat| j < shift ==> pow2(j) != n,
            decreases 64 - shift,
        {
            proof {
                lemma_u64_pow2_no_overflow(shift as nat);
                lemma_u64_shl_is_mul(1, shift);
                assert(1u64 << shift == pow2(shift as nat));
                let k = choose|k: nat| k < 64 && n == pow2(k);
                assert(shift != k);
                assert(shift + 1 < 64) by {
                    if shift + 1 == 64 {
                        assert(forall|j: nat| j < 64 ==> pow2(j) != n || j == shift);
                        assert(pow2(k) == n);
                    }
                }
            }
            shift = shift + 1;
        }
        proof {
            lemma_u64_pow2_no_overflow(shift as nat);
            lemma_u64_shl_is_mul(1, shift);
        }
        Alignment { shift }
    }

    /// The alignment for blocks of `pow2(shift)` bytes.
    pub fn new_from_shift(shift: u64) -> (r: Alignment)
        requires
            shift < 64,
        ensures
            r.wf(),
            r.sh() == shift,
    {
        Alignment { shift }
    }

    /// The block size.
    pub fn as_usize(self) -> (r: u64)
        requires
            self.wf(),
        ensures
            r == self.size_spec(),
    {
        proof {
            lemma_u64_pow2_no_overflow(self.sh());
            lemma_u64_shl_is_mul(1, self.shift);
        }
        1u64 << self.shift
    }

    /// The block size, under its other name.
    pub fn size(self) -> (r: u64)
        requires
            self.wf(),
        ensures
            r == self.size_spec(),
    {
        self.as_usize()
    }

    /// The exponent of the block size.
    pub fn shift(self) -> (r: u64)
        requires
            self.wf(),
        ensures
            r == self.sh(),
    {
        self.shift
    }

    /// The mask selecting the offset of an address within its block.
    pub fn mask(self) -> (r: u64)
        requires
            self.wf(),
        ensures
            r == low_bits_mask(self.sh()),
            r == self.size_spec() - 1,
    {
        proof {
            lemma_u64_pow2_no_overflow(self.sh());
            lemma_u64_shl_is_mul(1, self.shift);
        }
        (1u64 << self.shift) - 1
    }

    /// The mask selecting everything but the offset within the block.
    pub fn high_mask(self) -> (r: u64)
        requires
            self.wf(),
        ensures
            r == !(low_bits_mask(self.sh()) as u64),
    {
        !self.mask()
    }

    /// Whether `addr` is a multiple of the block size.
    pub fn is_aligned(self, addr: u64) -> (r: bool)
        requires
            self.wf(),
        ensures
            r <==> (addr as int) % (self.size_spec() as int) == 0,
    {
        proof {
            lemma_u64_pow2_no_overflow(self.sh());
            lemma_u64_low_bits_mask_is_mod(addr, self.sh());
        }
        addr & self.mask() == 0
    }

    /// The offset of `addr` within its block.
    pub fn align_down_offset(self, addr: u64) -> (r: u64)
        requires
            self.wf(),
        ensures
            r == (addr as int) % (self.size_spec() as int),
    {
        proof {
            lemma_u64_pow2_no_overflow(self.sh());
            lemma_u64_low_bits_mask_is_mod(addr, self.sh());
        }
        addr & self.mask()
    }

    /// `addr` rounded down to a multiple of the block size.
    pub fn align_down(self, addr: u64) -> (r: u64)
        requires
            self.wf(),
        ensures
            r == addr - (addr as int) % (self.size_spec() as int),
    {
        proof {
            lemma_pow2_pos(self.sh());
            lemma_mod_decreases(addr as nat, self.size_spec());
        }
        addr - self.align_down_offset(addr)
    }

    /// The distance from `addr` up to the next multiple of the block size.
    pub fn align_up_offset(self, addr: u64) -> (r: u64)
        requires
            self.wf(),
        ensures
            r < self.size_spec(),
            (addr as int) % (self.size_spec() as int) == 0 ==> r == 0,
            (addr as int) % (self.size_spec() as int) != 0
                ==> addr + r == addr - (addr as int) % (self.size_spec() as int) + self.size_spec(),
    {
        proof {
            lemma_pow2_pos(self.sh());
            lemma_u64_pow2_no_overflow(self.sh());
            lemma_mod_bound(addr as int, self.size_spec() as int);
        }
        let off = self.align_down_offset(addr);
        if off == 0 {
            0
        } else {
            self.size() - off
        }
    }

    /// `addr` rounded up to a multiple of the block size, or `None` when that
    /// would exceed `u64`.
    pub fn checked_align_up(self, addr: u64) -> (r: Option<u64>)
        requires
            self.wf(),
        ensures
            match r {
                Some(v) => v == spec_align_up(addr as int, self.size_spec() as int),
                None => spec_align_up(addr as int, self.size_spec() as int) > u64::MAX,
            },
    {
        proof {
            lemma_pow2_pos(self.sh());
            lemma_mod_bound(addr as int, self.size_spec() as int);
        }
        let off = self.align_up_offset(addr);
        if addr > u64::MAX - off {
            None
        } else {
            Some(addr + off)
        }
    }

    /// `addr` rounded up to a multiple of the block size; the result must fit.
    pub fn align_up(self, addr: u64) -> (r: u64)
        requires
            self.wf(),
            spec_align_up(addr as int, self.size_spec() as int) <= u64::MAX,
        ensures
            r == spec_align_up(addr as int, self.size_spec() as int),
    {
        proof {
            lemma_pow2_pos(self.sh());
            lemma_mod_bound(addr as int, self.size_spec() as int);
        }
        addr + self.align_up_offset(addr)
    }

    /// Splits `[start, end)` into a leading part below the first block
    /// boundary, the aligned middle, and a trailing part past the last
    /// boundary: returns (leading length, middle start, middle end, trailing
    /// length).
    pub fn split_range(self, start: u64, end: u64) -> (r: (u64, u64, u64, u64))
        requires
            self.wf(),
            start <= end,
            spec_align_up(start as int, self.size_spec() as int) <= u64::MAX,
        ensures
            r.0 == r.1 - start,
            r.1 == spec_align_up(start as int, self.size_spec() as int),
            r.2 == end - (end as int) % (self.size_spec() as int),
            r.3 == (end as int) % (self.size_spec() as int),
    {
        proof {
            lemma_pow2_pos(self.sh());
            lemma_mod_bound(start as int, self.size_spec() as int);
        }
        let mid_start = self.align_up(start);
        let mid_end = self.align_down(end);
        (mid_start - start, mid_start, mid_end, self.align_down_offset(end))
    }
}

/// `a` rounded up to a multiple of `sz`.
pub open spec fn spec_align_up(a: int, sz: int) -> int {
    if a % sz == 0 {
        a
    } else {
        a - a % sz + sz
    }
}

} // verus!
