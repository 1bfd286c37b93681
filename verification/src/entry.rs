//! Raw page-table entry values and the typed flag views over them.

use vstd::prelude::*;
use crate::addr::FrameAddr;
use crate::addr::HasPhysAddr;
use crate::addr::PageAddr;
use crate::addr::AlignedVirt;
use crate::addr::AlignedPhys;
use crate::addr::HasVirtAddr;

verus! {

/// Bits of an entry that hold the target frame: 52-bit physical addresses
/// with the low 12 bits zero.
pub const PT_FRAME_BITS: u64 = 0x000F_FFFF_FFFF_F000;

/// The hardware present bit.
pub const PRESENT_FLAG: u64 = 1;

/// The writable bit.
pub const WRITABLE_FLAG: u64 = 2;

/// Index bits consumed per level.
pub const PTE_INDEX_SIZE: u64 = 9;

/// A present page-table entry: a frame plus flags, with the present bit
/// always set.
#[derive(Clone, Copy, PartialEq, Eq, Structural)]
pub struct Entry {
    bits: u64,
}

impl Entry {
    /// The raw bits.
    pub closed spec fn bits_spec(&self) -> u64 {
        self.bits
    }

    /// The raw bits as a machine word.
    pub fn to_usize(self) -> (r: u64)
        ensures
            r == self.bits_spec(),
    {
        self.bits
    }

    /// An entry from raw bits, forcing the present bit on.
    pub fn from_usize(raw: u64) -> (r: Entry)
        ensures
            r.bits_spec() == raw | PRESENT_FLAG,
            r.bits_spec() & PRESENT_FLAG == 1,
    {
        proof {
            assert((raw | 1u64) & 1u64 == 1) by (bit_vector);
        }
        Entry { bits: raw | PRESENT_FLAG }
    }

    /// A present entry with no frame and no extra flags.
    pub fn empty() -> (r: Entry)
        ensures
            r.bits_spec() == 1,
    {
        proof {
            assert(0u64 | 1u64 == 1u64) by (bit_vector);
        }
        Entry::from_usize(0)
    }

    /// A present entry pointing at `addr`, which must fit the 52 bits a
    /// physical address may use: the frame survives a read back unchanged.
    pub fn at_frame(addr: FrameAddr) -> (r: Entry)
        requires
            addr.paddr() < 0x10_0000_0000_0000,
        ensures
            r.bits_spec() == addr.paddr() + 1,
            r.bits_spec() & PRESENT_FLAG == 1,
            r.bits_spec() & PT_FRAME_BITS == addr.paddr(),
    {
        let a = addr.usize();
        proof {
            use_type_invariant(&addr);
            assert(a % 4096 == 0 ==> (a | 1u64) == a + 1) by (bit_vector);
            assert((a % 4096 == 0 && a < 0x10_0000_0000_0000) ==> ((a | 1u64)
                & 0x000F_FFFF_FFFF_F000u64) == a) by (bit_vector);
        }
        Entry::from_usize(a)
    }

    /// The frame the entry points at.
    pub fn frame(&self) -> (r: FrameAddr)
        ensures
            r.paddr() == self.bits_spec() & PT_FRAME_BITS,
    {
        let masked = self.bits & PT_FRAME_BITS;
        proof {
            let b = self.bits;
            assert((b & 0x000F_FFFF_FFFF_F000u64) % 4096 == 0) by (bit_vector);
        }
        FrameAddr::from_usize(masked)
    }

    /// Replaces the frame bits with `addr`, keeping the flags, under the
    /// given frame-bit mask.
    pub fn set_frame_with_size(&mut self, addr: FrameAddr, size_bits: u64) -> (r: Entry)
        ensures
            final(self).bits_spec() == (old(self).bits_spec() & !size_bits) | ((addr.paddr()
                as u64) & size_bits) | PRESENT_FLAG,
            r == *final(self),
    {
        let a = addr.usize();
        self.bits = (self.bits & !size_bits) | (a & size_bits) | PRESENT_FLAG;
        *self
    }

    /// Replaces the frame bits with `addr`, keeping the flags.
    pub fn set_frame(&mut self, addr: FrameAddr) -> (r: Entry)
        ensures
            final(self).bits_spec() == (old(self).bits_spec() & !PT_FRAME_BITS) | ((addr.paddr()
                as u64) & PT_FRAME_BITS) | PRESENT_FLAG,
            r == *final(self),
    {
        self.set_frame_with_size(addr, PT_FRAME_BITS)
    }

    /// The entry's flag bits under the view `F`, which must all be legal.
    pub fn flags<F: Flags>(self) -> (r: F)
        requires
            self.bits_spec() & F::always_set_spec() == F::always_set_spec(),
        ensures
            r.to_spec() == (self.bits_spec() & F::mask_spec()) | F::always_set_spec(),
    {
        F::from_usize(self.bits)
    }

    /// Replaces the flag bits the view `F` owns.
    pub fn set_flags<F: Flags>(&mut self, flags: F) -> (r: Entry)
        ensures
            final(self).bits_spec() == (old(self).bits_spec() & !F::mask_spec()) | flags.to_spec(),
            r == *final(self),
    {
        self.bits = (self.bits & !F::mask()) | flags.to_usize();
        *self
    }

    /// Turns on the flag bits set in `flags`.
    pub fn add_flags<F: Flags>(&mut self, flags: F) -> (r: Entry)
        ensures
            final(self).bits_spec() == old(self).bits_spec() | flags.to_spec(),
            r == *final(self),
    {
        self.bits = self.bits | flags.to_usize();
        *self
    }
}

/// Seals the flag views: only this crate's page-table roles implement them.
pub trait Seal {

}

/// A typed view over an entry's flag bits: each role owns a legal-bit mask
/// and a set of bits it always keeps on.
pub trait Flags: Seal + Sized {
    /// The raw flag bits held.
    spec fn to_spec(&self) -> u64;

    /// The bits this role may touch.
    spec fn mask_spec() -> u64;

    /// The bits this role always keeps set.
    spec fn always_set_spec() -> u64;

    /// The bits this role may touch, as a machine word.
    fn mask() -> (r: u64)
        ensures
            r == Self::mask_spec(),
    ;

    /// The flag bits held.
    fn bits_of(&self) -> (r: u64)
        ensures
            r == self.to_spec(),
    ;

    /// A view over `flags`, keeping only legal bits and forcing the
    /// always-set ones.
    fn from_usize(flags: u64) -> (r: Self)
        ensures
            r.to_spec() == (flags & Self::mask_spec()) | Self::always_set_spec(),
    ;

    /// The raw bits.
    fn to_usize(&self) -> (r: u64)
        ensures
            r == self.to_spec(),
    ;

    /// Turns on the legal bits of `flags`.
    fn set(&mut self, flags: u64) -> (r: Self)
        ensures
            final(self).to_spec() == old(self).to_spec() | (flags & Self::mask_spec()),
            r.to_spec() == final(self).to_spec(),
    ;

    /// Turns off the legal bits of `flags`.
    fn clear(&mut self, flags: u64) -> (r: Self)
        ensures
            final(self).to_spec() == old(self).to_spec() & !(flags & Self::mask_spec()),
            r.to_spec() == final(self).to_spec(),
    ;
}


/// The flags every entry role shares.
#[derive(Clone, Copy, PartialEq, Eq, Structural)]
pub struct GenericEntryFlags {
    bits: u64,
}

impl Seal for GenericEntryFlags {

}

impl Flags for GenericEntryFlags {
    closed spec fn to_spec(&self) -> u64 {
        self.bits
    }

    open spec fn mask_spec() -> u64 {
        0x8000_0000_0000_003Fu64
    }

    open spec fn always_set_spec() -> u64 {
        0u64 | PRESENT_FLAG
    }

    fn mask() -> u64 {
        0x8000_0000_0000_003Fu64
    }

    fn bits_of(&self) -> u64 {
        self.bits
    }

    fn from_usize(flags: u64) -> Self {
        GenericEntryFlags { bits: (flags & 0x8000_0000_0000_003Fu64) | (0u64 | PRESENT_FLAG) }
    }

    fn to_usize(&self) -> u64 {
        self.bits
    }

    fn set(&mut self, flags: u64) -> Self {
        self.bits = self.bits | (flags & 0x8000_0000_0000_003Fu64);
        *self
    }

    fn clear(&mut self, flags: u64) -> Self {
        self.bits = self.bits & !(flags & 0x8000_0000_0000_003Fu64);
        *self
    }
}

/// The flags of a small-leaf mapping.
#[derive(Clone, Copy, PartialEq, Eq, Structural)]
pub struct PageFlags {
    bits: u64,
}

impl Seal for PageFlags {

}

impl Flags for PageFlags {
    closed spec fn to_spec(&self) -> u64 {
        self.bits
    }

    open spec fn mask_spec() -> u64 {
        0xF800_0000_0000_01FFu64
    }

    open spec fn always_set_spec() -> u64 {
        0u64 | PRESENT_FLAG
    }

    fn mask() -> u64 {
        0xF800_0000_0000_01FFu64
    }

    fn bits_of(&self) -> u64 {
        self.bits
    }

    fn from_usize(flags: u64) -> Self {
        PageFlags { bits: (flags & 0xF800_0000_0000_01FFu64) | (0u64 | PRESENT_FLAG) }
    }

    fn to_usize(&self) -> u64 {
        self.bits
    }

    fn set(&mut self, flags: u64) -> Self {
        self.bits = self.bits | (flags & 0xF800_0000_0000_01FFu64);
        *self
    }

    fn clear(&mut self, flags: u64) -> Self {
        self.bits = self.bits & !(flags & 0xF800_0000_0000_01FFu64);
        *self
    }
}

/// The flags of an upper-level entry.
#[derive(Clone, Copy, PartialEq, Eq, Structural)]
pub struct HighLevelEntryFlags {
    bits: u64,
}

impl Seal for HighLevelEntryFlags {

}

impl Flags for HighLevelEntryFlags {
    closed spec fn to_spec(&self) -> u64 {
        self.bits
    }

    open spec fn mask_spec() -> u64 {
        0xF800_0000_0000_00FFu64
    }

    open spec fn always_set_spec() -> u64 {
        0u64 | PRESENT_FLAG
    }

    fn mask() -> u64 {
        0xF800_0000_0000_00FFu64
    }

    fn bits_of(&self) -> u64 {
        self.bits
    }

    fn from_usize(flags: u64) -> Self {
        HighLevelEntryFlags { bits: (flags & 0xF800_0000_0000_00FFu64) | (0u64 | PRESENT_FLAG) }
    }

    fn to_usize(&self) -> u64 {
        self.bits
    }

    fn set(&mut self, flags: u64) -> Self {
        self.bits = self.bits | (flags & 0xF800_0000_0000_00FFu64);
        *self
    }

    fn clear(&mut self, flags: u64) -> Self {
        self.bits = self.bits & !(flags & 0xF800_0000_0000_00FFu64);
        *self
    }
}

/// The flags of an entry holding a sub-table.
#[derive(Clone, Copy, PartialEq, Eq, Structural)]
pub struct SubtableFlags {
    bits: u64,
}

impl Seal for SubtableFlags {

}

impl Flags for SubtableFlags {
    closed spec fn to_spec(&self) -> u64 {
        self.bits
    }

    open spec fn mask_spec() -> u64 {
        0x8000_0000_0000_007Fu64
    }

    open spec fn always_set_spec() -> u64 {
        0u64 | PRESENT_FLAG
    }

    fn mask() -> u64 {
        0x8000_0000_0000_007Fu64
    }

    fn bits_of(&self) -> u64 {
        self.bits
    }

    fn from_usize(flags: u64) -> Self {
        SubtableFlags { bits: (flags & 0x8000_0000_0000_007Fu64) | (0u64 | PRESENT_FLAG) }
    }

    fn to_usize(&self) -> u64 {
        self.bits
    }

    fn set(&mut self, flags: u64) -> Self {
        self.bits = self.bits | (flags & 0x8000_0000_0000_007Fu64);
        *self
    }

    fn clear(&mut self, flags: u64) -> Self {
        self.bits = self.bits & !(flags & 0x8000_0000_0000_007Fu64);
        *self
    }
}

/// The flags of a large-leaf mapping, whose large-page bit stays on.
#[derive(Clone, Copy, PartialEq, Eq, Structural)]
pub struct LargePageFlags {
    bits: u64,
}

impl Seal for LargePageFlags {

}

impl Flags for LargePageFlags {
    closed spec fn to_spec(&self) -> u64 {
        self.bits
    }

    open spec fn mask_spec() -> u64 {
        0xF800_0000_0000_117Fu64
    }

    open spec fn always_set_spec() -> u64 {
        0x80u64 | PRESENT_FLAG
    }

    fn mask() -> u64 {
        0xF800_0000_0000_117Fu64
    }

    fn bits_of(&self) -> u64 {
        self.bits
    }

    fn from_usize(flags: u64) -> Self {
        LargePageFlags { bits: (flags & 0xF800_0000_0000_117Fu64) | (0x80u64 | PRESENT_FLAG) }
    }

    fn to_usize(&self) -> u64 {
        self.bits
    }

    fn set(&mut self, flags: u64) -> Self {
        self.bits = self.bits | (flags & 0xF800_0000_0000_117Fu64);
        *self
    }

    fn clear(&mut self, flags: u64) -> Self {
        self.bits = self.bits & !(flags & 0xF800_0000_0000_117Fu64);
        *self
    }
}

/// The virtual page governed by the entry at the given index of each level.
pub fn pte_indices_to_addr(l4: u64, l3: u64, l2: u64, l1: u64) -> (r: PageAddr)
    requires
        l4 < 512,
        l3 < 512,
        l2 < 512,
        l1 < 512,
    ensures
        r.vaddr() == pte_addr_spec(l4 as int, l3 as int, l2 as int, l1 as int),
{
    let page_number = (l4 << 27) | (l3 << 18) | (l2 << 9) | l1;
    let low = page_number << 12;
    let addr = if low & 0x8000_0000_0000u64 != 0 {
        low | 0xFFFF_0000_0000_0000u64
    } else {
        low
    };
    proof {
        lemma_pte_pack(l4, l3, l2, l1);
    }
    PageAddr::from_usize(addr)
}

/// The page number packed from four level indices, sign-extended to a
/// canonical virtual address.
pub open spec fn pte_addr_spec(l4: int, l3: int, l2: int, l1: int) -> int {
    let low = (l4 * 0x8000000000 + l3 * 0x40000000 + l2 * 0x200000 + l1 * 0x1000);
    if l4 >= 256 {
        low + 0xFFFF_0000_0000_0000
    } else {
        low
    }
}

/// Packing four 9-bit indices and shifting equals the arithmetic sum, the
/// result is page-aligned, and bit 47 mirrors the top index's high bit.
proof fn lemma_pte_pack(l4: u64, l3: u64, l2: u64, l1: u64)
    by (bit_vector)
    requires
        l4 < 512,
        l3 < 512,
        l2 < 512,
        l1 < 512,
    ensures
        ((((l4 << 27) | (l3 << 18) | (l2 << 9) | l1) << 12)) == (l4 * 0x8000000000 + l3
            * 0x40000000 + l2 * 0x200000 + l1 * 0x1000),
        ((((l4 << 27) | (l3 << 18) | (l2 << 9) | l1) << 12) & 0x8000_0000_0000u64 != 0) == (l4
            >= 256),
        ((((l4 << 27) | (l3 << 18) | (l2 << 9) | l1) << 12) | 0xFFFF_0000_0000_0000u64) == ((((l4
            << 27) | (l3 << 18) | (l2 << 9) | l1) << 12) + 0xFFFF_0000_0000_0000),
        ((((l4 << 27) | (l3 << 18) | (l2 << 9) | l1) << 12)) % 4096 == 0,
        (((((l4 << 27) | (l3 << 18) | (l2 << 9) | l1) << 12) | 0xFFFF_0000_0000_0000u64) % 4096)
            == 0,
{
}

/// The four level indices a virtual page address decomposes into.
pub fn addr_to_pte_indices(addr: PageAddr) -> (r: (u64, u64, u64, u64))
    ensures
        r.0 == ((addr.vaddr() as u64) >> 39) & 511,
        r.1 == ((addr.vaddr() as u64) >> 30) & 511,
        r.2 == ((addr.vaddr() as u64) >> 21) & 511,
        r.3 == ((addr.vaddr() as u64) >> 12) & 511,
{
    let a = addr.usize();
    let page_number = a >> 12;
    proof {
        let x = a;
        assert((x >> 12) >> 27 == x >> 39) by (bit_vector);
        assert((x >> 12) >> 18 == x >> 30) by (bit_vector);
        assert((x >> 12) >> 9 == x >> 21) by (bit_vector);
        assert((x >> 12) >> 0 == x >> 12) by (bit_vector);
    }
    (
        (page_number >> 27) & 511,
        (page_number >> 18) & 511,
        (page_number >> 9) & 511,
        (page_number >> 0) & 511,
    )
}

} // verus!
