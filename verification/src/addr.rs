//! Typed physical and virtual addresses, with per-level aligned variants.

use vstd::prelude::*;
use crate::align::Alignment;

verus! {

use vstd::arithmetic::div_mod::lemma_mod_bound;
use vstd::arithmetic::div_mod::lemma_mod_decreases;

/// Bytes covered by one order-0 frame or page.
pub const PAGE_SIZE: u64 = 4096;

/// log2 of `PAGE_SIZE`.
pub const PAGE_SHIFT: u64 = 12;

/// Index bits consumed by each page-table level.
pub const PTE_INDEX_SIZE: u64 = 9;

/// Bytes governed by one entry at each level.
pub const L1_SPAN: u64 = 0x1000;
pub const L2_SPAN: u64 = 0x20_0000;
pub const L3_SPAN: u64 = 0x4000_0000;
pub const L4_SPAN: u64 = 0x80_0000_0000;

/// Size of the boot-time identity mapping of low physical memory.
pub const ID_MAP_SIZE: u64 = 0x4000_0000;

/// Virtual address at which the identity mapping of low physical memory
/// starts.
pub const HIGH_ID_MAP_ADDR: u64 = 0xFFFF_FFFF_C000_0000;

/// Meaningful bits of a canonical virtual address.
pub const VIRT_ADDR_BITS: u64 = 48;

/// A physical byte address.
#[derive(Clone, Copy, Debug, PartialEq, Eq, Structural)]
pub struct PhysAddr {
    addr: u64,
}

/// A virtual byte address.
#[derive(Clone, Copy, Debug, PartialEq, Eq, Structural)]
pub struct VirtAddr {
    addr: u64,
}

/// A physical address aligned to an order-0 frame (4 KiB).
#[derive(Clone, Copy, Debug, PartialEq, Eq, Structural)]
pub struct FrameAddr {
    addr: u64,
}

/// A physical address aligned to the span of an L2 entry (2 MiB).
#[derive(Clone, Copy, Debug, PartialEq, Eq, Structural)]
pub struct PTL2FrameAddr {
    addr: u64,
}

/// A physical address aligned to the span of an L3 entry (1 GiB).
#[derive(Clone, Copy, Debug, PartialEq, Eq, Structural)]
pub struct PTL3FrameAddr {
    addr: u64,
}

/// A physical address aligned to the span of an L4 entry (512 GiB).
#[derive(Clone, Copy, Debug, PartialEq, Eq, Structural)]
pub struct PTL4FrameAddr {
    addr: u64,
}

/// A virtual address aligned to one page (4 KiB).
#[derive(Clone, Copy, Debug, PartialEq, Eq, Structural)]
pub struct PageAddr {
    addr: u64,
}

/// A virtual address aligned to the span of an L2 entry (2 MiB).
#[derive(Clone, Copy, Debug, PartialEq, Eq, Structural)]
pub struct PTL2PageAddr {
    addr: u64,
}

/// A virtual address aligned to the span of an L3 entry (1 GiB).
#[derive(Clone, Copy, Debug, PartialEq, Eq, Structural)]
pub struct PTL3PageAddr {
    addr: u64,
}

/// A virtual address aligned to the span of an L4 entry (512 GiB).
#[derive(Clone, Copy, Debug, PartialEq, Eq, Structural)]
pub struct PTL4PageAddr {
    addr: u64,
}

/// Anything that names a physical byte address.
pub trait HasPhysAddr: Sized {
    /// The address as a number.
    spec fn paddr(&self) -> int;

    /// The address as a machine word.
    fn usize(&self) -> (r: u64)
        ensures
            r == self.paddr(),
    ;

    /// The same address as an untyped `PhysAddr`.
    fn phys_addr(&self) -> (r: PhysAddr)
        ensures
            r.addr_spec() == self.paddr(),
    ;

    /// The virtual address of this byte under the boot identity mapping,
    /// which covers only the low `ID_MAP_SIZE` bytes of physical memory.
    fn to_virt(&self) -> (r: VirtAddr)
        requires
            self.paddr() < ID_MAP_SIZE,
        ensures
            r.addr_spec() == self.paddr() + HIGH_ID_MAP_ADDR,
    ;

    /// The offset of the address within an aligned block.
    fn align_offset(&self, alignment: Alignment) -> (r: u64)
        requires
            alignment.wf(),
        ensures
            r == self.paddr() % (alignment.size_spec() as int),
    ;

    /// Whether the address is a multiple of the given block size.
    fn is_aligned(&self, alignment: Alignment) -> (r: bool)
        requires
            alignment.wf(),
        ensures
            r <==> self.paddr() % (alignment.size_spec() as int) == 0,
    ;
}

/// Anything that names a virtual byte address.
pub trait HasVirtAddr: Sized {
    /// The address as a number.
    spec fn vaddr(&self) -> int;

    /// The address as a machine word.
    fn usize(&self) -> (r: u64)
        ensures
            r == self.vaddr(),
    ;

    /// The same address as an untyped `VirtAddr`.
    fn virt_addr(&self) -> (r: VirtAddr)
        ensures
            r.addr_spec() == self.vaddr(),
    ;

    /// The physical address of this byte under the boot identity mapping,
    /// which covers only virtual addresses from `HIGH_ID_MAP_ADDR` up.
    fn to_phys(&self) -> (r: PhysAddr)
        requires
            HIGH_ID_MAP_ADDR <= self.vaddr(),
        ensures
            r.addr_spec() == self.vaddr() - HIGH_ID_MAP_ADDR,
    ;

    /// The offset of the address within an aligned block.
    fn align_offset(&self, alignment: Alignment) -> (r: u64)
        requires
            alignment.wf(),
        ensures
            r == self.vaddr() % (alignment.size_spec() as int),
    ;

    /// Whether the address is a multiple of the given block size.
    fn is_aligned(&self, alignment: Alignment) -> (r: bool)
        requires
            alignment.wf(),
        ensures
            r <==> self.vaddr() % (alignment.size_spec() as int) == 0,
    ;
}

/// A physical address type whose values are all aligned to one span.
pub trait AlignedPhys: HasPhysAddr {
    /// The span, in bytes, that values of this type are aligned to.
    spec fn span_spec() -> int;

    /// The span as a machine word.
    fn span() -> (r: u64)
        ensures
            r == Self::span_spec(),
    ;

    /// The typed address at `n`, which must be a multiple of the span.
    fn from_usize(n: u64) -> (r: Self)
        requires
            n as int % Self::span_spec() == 0,
        ensures
            r.paddr() == n,
    ;
}

/// A virtual address type whose values are all aligned to one span.
pub trait AlignedVirt: HasVirtAddr {
    /// The span, in bytes, that values of this type are aligned to.
    spec fn span_spec() -> int;

    /// The span as a machine word.
    fn span() -> (r: u64)
        ensures
            r == Self::span_spec(),
    ;

    /// The typed address at `n`, which must be a multiple of the span.
    fn from_usize(n: u64) -> (r: Self)
        requires
            n as int % Self::span_spec() == 0,
        ensures
            r.vaddr() == n,
    ;
}

impl HasPhysAddr for u64 {
    open spec fn paddr(&self) -> int {
        *self as int
    }

    fn usize(&self) -> u64 {
        *self
    }

    fn phys_addr(&self) -> PhysAddr {
        PhysAddr { addr: *self }
    }

    fn to_virt(&self) -> VirtAddr {
        VirtAddr { addr: *self + HIGH_ID_MAP_ADDR }
    }

    fn align_offset(&self, alignment: Alignment) -> u64 {
        alignment.align_down_offset(*self)
    }

    fn is_aligned(&self, alignment: Alignment) -> bool {
        alignment.is_aligned(*self)
    }
}


impl PhysAddr {
    /// The address as a number.
    pub closed spec fn addr_spec(&self) -> int {
        self.addr as int
    }

    /// The untyped physical address at `n`.
    pub fn new(n: u64) -> (r: PhysAddr)
        ensures
            r.addr_spec() == n,
    {
        PhysAddr { addr: n }
    }
}

impl HasPhysAddr for PhysAddr {
    open spec fn paddr(&self) -> int {
        self.addr_spec()
    }

    fn usize(&self) -> u64 {
        self.addr
    }

    fn phys_addr(&self) -> PhysAddr {
        PhysAddr { addr: self.addr }
    }

    fn to_virt(&self) -> VirtAddr {
        VirtAddr { addr: self.addr + HIGH_ID_MAP_ADDR }
    }

    fn align_offset(&self, alignment: Alignment) -> u64 {
        alignment.align_down_offset(self.addr)
    }

    fn is_aligned(&self, alignment: Alignment) -> bool {
        alignment.is_aligned(self.addr)
    }
}

impl VirtAddr {
    /// The address as a number.
    pub closed spec fn addr_spec(&self) -> int {
        self.addr as int
    }

    /// The untyped virtual address at `n`.
    pub fn new(n: u64) -> (r: VirtAddr)
        ensures
            r.addr_spec() == n,
    {
        VirtAddr { addr: n }
    }
}

impl HasVirtAddr for VirtAddr {
    open spec fn vaddr(&self) -> int {
        self.addr_spec()
    }

    fn usize(&self) -> u64 {
        self.addr
    }

    fn virt_addr(&self) -> VirtAddr {
        VirtAddr { addr: self.addr }
    }

    fn to_phys(&self) -> PhysAddr {
        PhysAddr { addr: self.addr - HIGH_ID_MAP_ADDR }
    }

    fn align_offset(&self, alignment: Alignment) -> u64 {
        alignment.align_down_offset(self.addr)
    }

    fn is_aligned(&self, alignment: Alignment) -> bool {
        alignment.is_aligned(self.addr)
    }
}


impl FrameAddr {
    #[verifier::type_invariant]
    pub open spec fn aligned(self) -> bool {
        self.paddr() % (L1_SPAN as int) == 0
    }

    /// The physical address of the block `index` spans past address zero.
    pub fn at_index(index: u64) -> (r: FrameAddr)
        requires
            index * L1_SPAN <= u64::MAX,
        ensures
            r.paddr() == index * L1_SPAN,
    {
        let r = FrameAddr { addr: index * L1_SPAN };
        proof {
            assert(r.addr % L1_SPAN == 0) by (nonlinear_arith)
                requires
                    r.addr == index * L1_SPAN,
            ;
        }
        r
    }

    /// Which multiple of the span this address is.
    pub fn index(&self) -> (r: u64)
        ensures
            r == self.paddr() / (L1_SPAN as int),
    {
        self.addr / L1_SPAN
    }

    /// The address `off` spans further on.
    pub fn next(self, off: u64) -> (r: FrameAddr)
        requires
            self.paddr() + off * L1_SPAN <= u64::MAX,
        ensures
            r.paddr() == self.paddr() + off * L1_SPAN,
    {
        proof {
            use_type_invariant(self);
        }
        let step = off * L1_SPAN;
        let r = FrameAddr { addr: self.addr + step };
        proof {
            assert(((self.addr + off * L1_SPAN) as int) % (L1_SPAN as int) == 0) by (nonlinear_arith)
                requires
                    self.addr % L1_SPAN == 0,
                    self.addr + off * L1_SPAN <= u64::MAX,
            ;
        }
        r
    }

    /// The address `off` spans back.
    pub fn prev(self, off: u64) -> (r: FrameAddr)
        requires
            self.paddr() - off * L1_SPAN >= 0,
        ensures
            r.paddr() == self.paddr() - off * L1_SPAN,
    {
        proof {
            use_type_invariant(self);
        }
        let step = off * L1_SPAN;
        let r = FrameAddr { addr: self.addr - step };
        proof {
            assert(((self.addr - off * L1_SPAN) as int) % (L1_SPAN as int) == 0) by (nonlinear_arith)
                requires
                    self.addr % L1_SPAN == 0,
                    self.addr >= off * L1_SPAN,
            ;
        }
        r
    }

    /// The untyped address rounded down to this type's span.
    pub fn containing(a: PhysAddr) -> (r: FrameAddr)
        ensures
            r.paddr() == a.addr_spec() - a.addr_spec() % (L1_SPAN as int),
    {
        let addr = a.usize();
        FrameAddr { addr: addr - addr % L1_SPAN }
    }

    /// The typed address at `a`, or `None` where `a` is not span-aligned.
    pub fn try_from(a: PhysAddr) -> (r: Option<FrameAddr>)
        ensures
            match r {
                Some(v) => v.paddr() == a.addr_spec() && a.addr_spec() % (L1_SPAN as int) == 0,
                None => a.addr_spec() % (L1_SPAN as int) != 0,
            },
    {
        let addr = a.usize();
        if addr % L1_SPAN == 0 {
            Some(FrameAddr { addr })
        } else {
            None
        }
    }
}

impl HasPhysAddr for FrameAddr {
    closed spec fn paddr(&self) -> int {
        self.addr as int
    }

    fn usize(&self) -> u64 {
        self.addr
    }

    fn phys_addr(&self) -> PhysAddr {
        PhysAddr { addr: self.addr }
    }

    fn to_virt(&self) -> VirtAddr {
        VirtAddr { addr: self.addr + HIGH_ID_MAP_ADDR }
    }

    fn align_offset(&self, alignment: Alignment) -> u64 {
        alignment.align_down_offset(self.addr)
    }

    fn is_aligned(&self, alignment: Alignment) -> bool {
        alignment.is_aligned(self.addr)
    }
}

impl AlignedPhys for FrameAddr {
    open spec fn span_spec() -> int {
        L1_SPAN as int
    }

    fn span() -> u64 {
        L1_SPAN
    }

    fn from_usize(n: u64) -> Self {
        FrameAddr { addr: n }
    }
}


impl PTL2FrameAddr {
    #[verifier::type_invariant]
    pub open spec fn aligned(self) -> bool {
        self.paddr() % (L2_SPAN as int) == 0
    }

    /// The physical address of the block `index` spans past address zero.
    pub fn at_index(index: u64) -> (r: PTL2FrameAddr)
        requires
            index * L2_SPAN <= u64::MAX,
        ensures
            r.paddr() == index * L2_SPAN,
    {
        let r = PTL2FrameAddr { addr: index * L2_SPAN };
        proof {
            assert(r.addr % L2_SPAN == 0) by (nonlinear_arith)
                requires
                    r.addr == index * L2_SPAN,
            ;
        }
        r
    }

    /// Which multiple of the span this address is.
    pub fn index(&self) -> (r: u64)
        ensures
            r == self.paddr() / (L2_SPAN as int),
    {
        self.addr / L2_SPAN
    }

    /// The address `off` spans further on.
    pub fn next(self, off: u64) -> (r: PTL2FrameAddr)
        requires
            self.paddr() + off * L2_SPAN <= u64::MAX,
        ensures
            r.paddr() == self.paddr() + off * L2_SPAN,
    {
        proof {
            use_type_invariant(self);
        }
        let step = off * L2_SPAN;
        let r = PTL2FrameAddr { addr: self.addr + step };
        proof {
            assert(((self.addr + off * L2_SPAN) as int) % (L2_SPAN as int) == 0) by (nonlinear_arith)
                requires
                    self.addr % L2_SPAN == 0,
                    self.addr + off * L2_SPAN <= u64::MAX,
            ;
        }
        r
    }

    /// The address `off` spans back.
    pub fn prev(self, off: u64) -> (r: PTL2FrameAddr)
        requires
            self.paddr() - off * L2_SPAN >= 0,
        ensures
            r.paddr() == self.paddr() - off * L2_SPAN,
    {
        proof {
            use_type_invariant(self);
        }
        let step = off * L2_SPAN;
        let r = PTL2FrameAddr { addr: self.addr - step };
        proof {
            assert(((self.addr - off * L2_SPAN) as int) % (L2_SPAN as int) == 0) by (nonlinear_arith)
                requires
                    self.addr % L2_SPAN == 0,
                    self.addr >= off * L2_SPAN,
            ;
        }
        r
    }

    /// The untyped address rounded down to this type's span.
    pub fn containing(a: PhysAddr) -> (r: PTL2FrameAddr)
        ensures
            r.paddr() == a.addr_spec() - a.addr_spec() % (L2_SPAN as int),
    {
        let addr = a.usize();
        PTL2FrameAddr { addr: addr - addr % L2_SPAN }
    }

    /// The typed address at `a`, or `None` where `a` is not span-aligned.
    pub fn try_from(a: PhysAddr) -> (r: Option<PTL2FrameAddr>)
        ensures
            match r {
                Some(v) => v.paddr() == a.addr_spec() && a.addr_spec() % (L2_SPAN as int) == 0,
                None => a.addr_spec() % (L2_SPAN as int) != 0,
            },
    {
        let addr = a.usize();
        if addr % L2_SPAN == 0 {
            Some(PTL2FrameAddr { addr })
        } else {
            None
        }
    }
}

impl HasPhysAddr for PTL2FrameAddr {
    closed spec fn paddr(&self) -> int {
        self.addr as int
    }

    fn usize(&self) -> u64 {
        self.addr
    }

    fn phys_addr(&self) -> PhysAddr {
        PhysAddr { addr: self.addr }
    }

    fn to_virt(&self) -> VirtAddr {
        VirtAddr { addr: self.addr + HIGH_ID_MAP_ADDR }
    }

    fn align_offset(&self, alignment: Alignment) -> u64 {
        alignment.align_down_offset(self.addr)
    }

    fn is_aligned(&self, alignment: Alignment) -> bool {
        alignment.is_aligned(self.addr)
    }
}

impl AlignedPhys for PTL2FrameAddr {
    open spec fn span_spec() -> int {
        L2_SPAN as int
    }

    fn span() -> u64 {
        L2_SPAN
    }

    fn from_usize(n: u64) -> Self {
        PTL2FrameAddr { addr: n }
    }
}


impl PTL3FrameAddr {
    #[verifier::type_invariant]
    pub open spec fn aligned(self) -> bool {
        self.paddr() % (L3_SPAN as int) == 0
    }

    /// The physical address of the block `index` spans past address zero.
    pub fn at_index(index: u64) -> (r: PTL3FrameAddr)
        requires
            index * L3_SPAN <= u64::MAX,
        ensures
            r.paddr() == index * L3_SPAN,
    {
        let r = PTL3FrameAddr { addr: index * L3_SPAN };
        proof {
            assert(r.addr % L3_SPAN == 0) by (nonlinear_arith)
                requires
                    r.addr == index * L3_SPAN,
            ;
        }
        r
    }

    /// Which multiple of the span this address is.
    pub fn index(&self) -> (r: u64)
        ensures
            r == self.paddr() / (L3_SPAN as int),
    {
        self.addr / L3_SPAN
    }

    /// The address `off` spans further on.
    pub fn next(self, off: u64) -> (r: PTL3FrameAddr)
        requires
            self.paddr() + off * L3_SPAN <= u64::MAX,
        ensures
            r.paddr() == self.paddr() + off * L3_SPAN,
    {
        proof {
            use_type_invariant(self);
        }
        let step = off * L3_SPAN;
        let r = PTL3FrameAddr { addr: self.addr + step };
        proof {
            assert(((self.addr + off * L3_SPAN) as int) % (L3_SPAN as int) == 0) by (nonlinear_arith)
                requires
                    self.addr % L3_SPAN == 0,
                    self.addr + off * L3_SPAN <= u64::MAX,
            ;
        }
        r
    }

    /// The address `off` spans back.
    pub fn prev(self, off: u64) -> (r: PTL3FrameAddr)
        requires
            self.paddr() - off * L3_SPAN >= 0,
        ensures
            r.paddr() == self.paddr() - off * L3_SPAN,
    {
        proof {
            use_type_invariant(self);
        }
        let step = off * L3_SPAN;
        let r = PTL3FrameAddr { addr: self.addr - step };
        proof {
            assert(((self.addr - off * L3_SPAN) as int) % (L3_SPAN as int) == 0) by (nonlinear_arith)
                requires
                    self.addr % L3_SPAN == 0,
                    self.addr >= off * L3_SPAN,
            ;
        }
        r
    }

    /// The untyped address rounded down to this type's span.
    pub fn containing(a: PhysAddr) -> (r: PTL3FrameAddr)
        ensures
            r.paddr() == a.addr_spec() - a.addr_spec() % (L3_SPAN as int),
    {
        let addr = a.usize();
        PTL3FrameAddr { addr: addr - addr % L3_SPAN }
    }

    /// The typed address at `a`, or `None` where `a` is not span-aligned.
    pub fn try_from(a: PhysAddr) -> (r: Option<PTL3FrameAddr>)
        ensures
            match r {
                Some(v) => v.paddr() == a.addr_spec() && a.addr_spec() % (L3_SPAN as int) == 0,
                None => a.addr_spec() % (L3_SPAN as int) != 0,
            },
    {
        let addr = a.usize();
        if addr % L3_SPAN == 0 {
            Some(PTL3FrameAddr { addr })
        } else {
            None
        }
    }
}

impl HasPhysAddr for PTL3FrameAddr {
    closed spec fn paddr(&self) -> int {
        self.addr as int
    }

    fn usize(&self) -> u64 {
        self.addr
    }

    fn phys_addr(&self) -> PhysAddr {
        PhysAddr { addr: self.addr }
    }

    fn to_virt(&self) -> VirtAddr {
        VirtAddr { addr: self.addr + HIGH_ID_MAP_ADDR }
    }

    fn align_offset(&self, alignment: Alignment) -> u64 {
        alignment.align_down_offset(self.addr)
    }

    fn is_aligned(&self, alignment: Alignment) -> bool {
        alignment.is_aligned(self.addr)
    }
}

impl AlignedPhys for PTL3FrameAddr {
    open spec fn span_spec() -> int {
        L3_SPAN as int
    }

    fn span() -> u64 {
        L3_SPAN
    }

    fn from_usize(n: u64) -> Self {
        PTL3FrameAddr { addr: n }
    }
}


impl PTL4FrameAddr {
    #[verifier::type_invariant]
    pub open spec fn aligned(self) -> bool {
        self.paddr() % (L4_SPAN as int) == 0
    }

    /// The physical address of the block `index` spans past address zero.
    pub fn at_index(index: u64) -> (r: PTL4FrameAddr)
        requires
            index * L4_SPAN <= u64::MAX,
        ensures
            r.paddr() == index * L4_SPAN,
    {
        let r = PTL4FrameAddr { addr: index * L4_SPAN };
        proof {
            assert(r.addr % L4_SPAN == 0) by (nonlinear_arith)
                requires
                    r.addr == index * L4_SPAN,
            ;
        }
        r
    }

    /// Which multiple of the span this address is.
    pub fn index(&self) -> (r: u64)
        ensures
            r == self.paddr() / (L4_SPAN as int),
    {
        self.addr / L4_SPAN
    }

    /// The address `off` spans further on.
    pub fn next(self, off: u64) -> (r: PTL4FrameAddr)
        requires
            self.paddr() + off * L4_SPAN <= u64::MAX,
        ensures
            r.paddr() == self.paddr() + off * L4_SPAN,
    {
        proof {
            use_type_invariant(self);
        }
        let step = off * L4_SPAN;
        let r = PTL4FrameAddr { addr: self.addr + step };
        proof {
            assert(((self.addr + off * L4_SPAN) as int) % (L4_SPAN as int) == 0) by (nonlinear_arith)
                requires
                    self.addr % L4_SPAN == 0,
                    self.addr + off * L4_SPAN <= u64::MAX,
            ;
        }
        r
    }

    /// The address `off` spans back.
    pub fn prev(self, off: u64) -> (r: PTL4FrameAddr)
        requires
            self.paddr() - off * L4_SPAN >= 0,
        ensures
            r.paddr() == self.paddr() - off * L4_SPAN,
    {
        proof {
            use_type_invariant(self);
        }
        let step = off * L4_SPAN;
        let r = PTL4FrameAddr { addr: self.addr - step };
        proof {
            assert(((self.addr - off * L4_SPAN) as int) % (L4_SPAN as int) == 0) by (nonlinear_arith)
                requires
                    self.addr % L4_SPAN == 0,
                    self.addr >= off * L4_SPAN,
            ;
        }
        r
    }

    /// The untyped address rounded down to this type's span.
    pub fn containing(a: PhysAddr) -> (r: PTL4FrameAddr)
        ensures
            r.paddr() == a.addr_spec() - a.addr_spec() % (L4_SPAN as int),
    {
        let addr = a.usize();
        PTL4FrameAddr { addr: addr - addr % L4_SPAN }
    }

    /// The typed address at `a`, or `None` where `a` is not span-aligned.
    pub fn try_from(a: PhysAddr) -> (r: Option<PTL4FrameAddr>)
        ensures
            match r {
                Some(v) => v.paddr() == a.addr_spec() && a.addr_spec() % (L4_SPAN as int) == 0,
                None => a.addr_spec() % (L4_SPAN as int) != 0,
            },
    {
        let addr = a.usize();
        if addr % L4_SPAN == 0 {
            Some(PTL4FrameAddr { addr })
        } else {
            None
        }
    }
}

impl HasPhysAddr for PTL4FrameAddr {
    closed spec fn paddr(&self) -> int {
        self.addr as int
    }

    fn usize(&self) -> u64 {
        self.addr
    }

    fn phys_addr(&self) -> PhysAddr {
        PhysAddr { addr: self.addr }
    }

    fn to_virt(&self) -> VirtAddr {
        VirtAddr { addr: self.addr + HIGH_ID_MAP_ADDR }
    }

    fn align_offset(&self, alignment: Alignment) -> u64 {
        alignment.align_down_offset(self.addr)
    }

    fn is_aligned(&self, alignment: Alignment) -> bool {
        alignment.is_aligned(self.addr)
    }
}

impl AlignedPhys for PTL4FrameAddr {
    open spec fn span_spec() -> int {
        L4_SPAN as int
    }

    fn span() -> u64 {
        L4_SPAN
    }

    fn from_usize(n: u64) -> Self {
        PTL4FrameAddr { addr: n }
    }
}


impl PageAddr {
    #[verifier::type_invariant]
    pub open spec fn aligned(self) -> bool {
        self.vaddr() % (L1_SPAN as int) == 0
    }

    /// The virtual address of the block `index` spans past address zero.
    pub fn at_index(index: u64) -> (r: PageAddr)
        requires
            index * L1_SPAN <= u64::MAX,
        ensures
            r.vaddr() == index * L1_SPAN,
    {
        let r = PageAddr { addr: index * L1_SPAN };
        proof {
            assert(r.addr % L1_SPAN == 0) by (nonlinear_arith)
                requires
                    r.addr == index * L1_SPAN,
            ;
        }
        r
    }

    /// Which multiple of the span this address is.
    pub fn index(&self) -> (r: u64)
        ensures
            r == self.vaddr() / (L1_SPAN as int),
    {
        self.addr / L1_SPAN
    }

    /// The address `off` spans further on.
    pub fn next(self, off: u64) -> (r: PageAddr)
        requires
            self.vaddr() + off * L1_SPAN <= u64::MAX,
        ensures
            r.vaddr() == self.vaddr() + off * L1_SPAN,
    {
        proof {
            use_type_invariant(self);
        }
        let step = off * L1_SPAN;
        let r = PageAddr { addr: self.addr + step };
        proof {
            assert(((self.addr + off * L1_SPAN) as int) % (L1_SPAN as int) == 0) by (nonlinear_arith)
                requires
                    self.addr % L1_SPAN == 0,
                    self.addr + off * L1_SPAN <= u64::MAX,
            ;
        }
        r
    }

    /// The address `off` spans back.
    pub fn prev(self, off: u64) -> (r: PageAddr)
        requires
            self.vaddr() - off * L1_SPAN >= 0,
        ensures
            r.vaddr() == self.vaddr() - off * L1_SPAN,
    {
        proof {
            use_type_invariant(self);
        }
        let step = off * L1_SPAN;
        let r = PageAddr { addr: self.addr - step };
        proof {
            assert(((self.addr - off * L1_SPAN) as int) % (L1_SPAN as int) == 0) by (nonlinear_arith)
                requires
                    self.addr % L1_SPAN == 0,
                    self.addr >= off * L1_SPAN,
            ;
        }
        r
    }

    /// The untyped address rounded down to this type's span.
    pub fn containing(a: VirtAddr) -> (r: PageAddr)
        ensures
            r.vaddr() == a.addr_spec() - a.addr_spec() % (L1_SPAN as int),
    {
        let addr = a.usize();
        PageAddr { addr: addr - addr % L1_SPAN }
    }

    /// The typed address at `a`, or `None` where `a` is not span-aligned.
    pub fn try_from(a: VirtAddr) -> (r: Option<PageAddr>)
        ensures
            match r {
                Some(v) => v.vaddr() == a.addr_spec() && a.addr_spec() % (L1_SPAN as int) == 0,
                None => a.addr_spec() % (L1_SPAN as int) != 0,
            },
    {
        let addr = a.usize();
        if addr % L1_SPAN == 0 {
            Some(PageAddr { addr })
        } else {
            None
        }
    }
}

impl HasVirtAddr for PageAddr {
    closed spec fn vaddr(&self) -> int {
        self.addr as int
    }

    fn usize(&self) -> u64 {
        self.addr
    }

    fn virt_addr(&self) -> VirtAddr {
        VirtAddr { addr: self.addr }
    }

    fn to_phys(&self) -> PhysAddr {
        PhysAddr { addr: self.addr - HIGH_ID_MAP_ADDR }
    }

    fn align_offset(&self, alignment: Alignment) -> u64 {
        alignment.align_down_offset(self.addr)
    }

    fn is_aligned(&self, alignment: Alignment) -> bool {
        alignment.is_aligned(self.addr)
    }
}

impl AlignedVirt for PageAddr {
    open spec fn span_spec() -> int {
        L1_SPAN as int
    }

    fn span() -> u64 {
        L1_SPAN
    }

    fn from_usize(n: u64) -> Self {
        PageAddr { addr: n }
    }
}


impl PTL2PageAddr {
    #[verifier::type_invariant]
    pub open spec fn aligned(self) -> bool {
        self.vaddr() % (L2_SPAN as int) == 0
    }

    /// The virtual address of the block `index` spans past address zero.
    pub fn at_index(index: u64) -> (r: PTL2PageAddr)
        requires
            index * L2_SPAN <= u64::MAX,
        ensures
            r.vaddr() == index * L2_SPAN,
    {
        let r = PTL2PageAddr { addr: index * L2_SPAN };
        proof {
            assert(r.addr % L2_SPAN == 0) by (nonlinear_arith)
                requires
                    r.addr == index * L2_SPAN,
            ;
        }
        r
    }

    /// Which multiple of the span this address is.
    pub fn index(&self) -> (r: u64)
        ensures
            r == self.vaddr() / (L2_SPAN as int),
    {
        self.addr / L2_SPAN
    }

    /// The address `off` spans further on.
    pub fn next(self, off: u64) -> (r: PTL2PageAddr)
        requires
            self.vaddr() + off * L2_SPAN <= u64::MAX,
        ensures
            r.vaddr() == self.vaddr() + off * L2_SPAN,
    {
        proof {
            use_type_invariant(self);
        }
        let step = off * L2_SPAN;
        let r = PTL2PageAddr { addr: self.addr + step };
        proof {
            assert(((self.addr + off * L2_SPAN) as int) % (L2_SPAN as int) == 0) by (nonlinear_arith)
                requires
                    self.addr % L2_SPAN == 0,
                    self.addr + off * L2_SPAN <= u64::MAX,
            ;
        }
        r
    }

    /// The address `off` spans back.
    pub fn prev(self, off: u64) -> (r: PTL2PageAddr)
        requires
            self.vaddr() - off * L2_SPAN >= 0,
        ensures
            r.vaddr() == self.vaddr() - off * L2_SPAN,
    {
        proof {
            use_type_invariant(self);
        }
        let step = off * L2_SPAN;
        let r = PTL2PageAddr { addr: self.addr - step };
        proof {
            assert(((self.addr - off * L2_SPAN) as int) % (L2_SPAN as int) == 0) by (nonlinear_arith)
                requires
                    self.addr % L2_SPAN == 0,
                    self.addr >= off * L2_SPAN,
            ;
        }
        r
    }

    /// The untyped address rounded down to this type's span.
    pub fn containing(a: VirtAddr) -> (r: PTL2PageAddr)
        ensures
            r.vaddr() == a.addr_spec() - a.addr_spec() % (L2_SPAN as int),
    {
        let addr = a.usize();
        PTL2PageAddr { addr: addr - addr % L2_SPAN }
    }

    /// The typed address at `a`, or `None` where `a` is not span-aligned.
    pub fn try_from(a: VirtAddr) -> (r: Option<PTL2PageAddr>)
        ensures
            match r {
                Some(v) => v.vaddr() == a.addr_spec() && a.addr_spec() % (L2_SPAN as int) == 0,
                None => a.addr_spec() % (L2_SPAN as int) != 0,
            },
    {
        let addr = a.usize();
        if addr % L2_SPAN == 0 {
            Some(PTL2PageAddr { addr })
        } else {
            None
        }
    }
}

impl HasVirtAddr for PTL2PageAddr {
    closed spec fn vaddr(&self) -> int {
        self.addr as int
    }

    fn usize(&self) -> u64 {
        self.addr
    }

    fn virt_addr(&self) -> VirtAddr {
        VirtAddr { addr: self.addr }
    }

    fn to_phys(&self) -> PhysAddr {
        PhysAddr { addr: self.addr - HIGH_ID_MAP_ADDR }
    }

    fn align_offset(&self, alignment: Alignment) -> u64 {
        alignment.align_down_offset(self.addr)
    }

    fn is_aligned(&self, alignment: Alignment) -> bool {
        alignment.is_aligned(self.addr)
    }
}

impl AlignedVirt for PTL2PageAddr {
    open spec fn span_spec() -> int {
        L2_SPAN as int
    }

    fn span() -> u64 {
        L2_SPAN
    }

    fn from_usize(n: u64) -> Self {
        PTL2PageAddr { addr: n }
    }
}


impl PTL3PageAddr {
    #[verifier::type_invariant]
    pub open spec fn aligned(self) -> bool {
        self.vaddr() % (L3_SPAN as int) == 0
    }

    /// The virtual address of the block `index` spans past address zero.
    pub fn at_index(index: u64) -> (r: PTL3PageAddr)
        requires
            index * L3_SPAN <= u64::MAX,
        ensures
            r.vaddr() == index * L3_SPAN,
    {
        let r = PTL3PageAddr { addr: index * L3_SPAN };
        proof {
            assert(r.addr % L3_SPAN == 0) by (nonlinear_arith)
                requires
                    r.addr == index * L3_SPAN,
            ;
        }
        r
    }

    /// Which multiple of the span this address is.
    pub fn index(&self) -> (r: u64)
        ensures
            r == self.vaddr() / (L3_SPAN as int),
    {
        self.addr / L3_SPAN
    }

    /// The address `off` spans further on.
    pub fn next(self, off: u64) -> (r: PTL3PageAddr)
        requires
            self.vaddr() + off * L3_SPAN <= u64::MAX,
        ensures
            r.vaddr() == self.vaddr() + off * L3_SPAN,
    {
        proof {
            use_type_invariant(self);
        }
        let step = off * L3_SPAN;
        let r = PTL3PageAddr { addr: self.addr + step };
        proof {
            assert(((self.addr + off * L3_SPAN) as int) % (L3_SPAN as int) == 0) by (nonlinear_arith)
                requires
                    self.addr % L3_SPAN == 0,
                    self.addr + off * L3_SPAN <= u64::MAX,
            ;
        }
        r
    }

    /// The address `off` spans back.
    pub fn prev(self, off: u64) -> (r: PTL3PageAddr)
        requires
            self.vaddr() - off * L3_SPAN >= 0,
        ensures
            r.vaddr() == self.vaddr() - off * L3_SPAN,
    {
        proof {
            use_type_invariant(self);
        }
        let step = off * L3_SPAN;
        let r = PTL3PageAddr { addr: self.addr - step };
        proof {
            assert(((self.addr - off * L3_SPAN) as int) % (L3_SPAN as int) == 0) by (nonlinear_arith)
                requires
                    self.addr % L3_SPAN == 0,
                    self.addr >= off * L3_SPAN,
            ;
        }
        r
    }

    /// The untyped address rounded down to this type's span.
    pub fn containing(a: VirtAddr) -> (r: PTL3PageAddr)
        ensures
            r.vaddr() == a.addr_spec() - a.addr_spec() % (L3_SPAN as int),
    {
        let addr = a.usize();
        PTL3PageAddr { addr: addr - addr % L3_SPAN }
    }

    /// The typed address at `a`, or `None` where `a` is not span-aligned.
    pub fn try_from(a: VirtAddr) -> (r: Option<PTL3PageAddr>)
        ensures
            match r {
                Some(v) => v.vaddr() == a.addr_spec() && a.addr_spec() % (L3_SPAN as int) == 0,
                None => a.addr_spec() % (L3_SPAN as int) != 0,
            },
    {
        let addr = a.usize();
        if addr % L3_SPAN == 0 {
            Some(PTL3PageAddr { addr })
        } else {
            None
        }
    }
}

impl HasVirtAddr for PTL3PageAddr {
    closed spec fn vaddr(&self) -> int {
        self.addr as int
    }

    fn usize(&self) -> u64 {
        self.addr
    }

    fn virt_addr(&self) -> VirtAddr {
        VirtAddr { addr: self.addr }
    }

    fn to_phys(&self) -> PhysAddr {
        PhysAddr { addr: self.addr - HIGH_ID_MAP_ADDR }
    }

    fn align_offset(&self, alignment: Alignment) -> u64 {
        alignment.align_down_offset(self.addr)
    }

    fn is_aligned(&self, alignment: Alignment) -> bool {
        alignment.is_aligned(self.addr)
    }
}

impl AlignedVirt for PTL3PageAddr {
    open spec fn span_spec() -> int {
        L3_SPAN as int
    }

    fn span() -> u64 {
        L3_SPAN
    }

    fn from_usize(n: u64) -> Self {
        PTL3PageAddr { addr: n }
    }
}


impl PTL4PageAddr {
    #[verifier::type_invariant]
    pub open spec fn aligned(self) -> bool {
        self.vaddr() % (L4_SPAN as int) == 0
    }

    /// The virtual address of the block `index` spans past address zero.
    pub fn at_index(index: u64) -> (r: PTL4PageAddr)
        requires
            index * L4_SPAN <= u64::MAX,
        ensures
            r.vaddr() == index * L4_SPAN,
    {
        let r = PTL4PageAddr { addr: index * L4_SPAN };
        proof {
            assert(r.addr % L4_SPAN == 0) by (nonlinear_arith)
                requires
                    r.addr == index * L4_SPAN,
            ;
        }
        r
    }

    /// Which multiple of the span this address is.
    pub fn index(&self) -> (r: u64)
        ensures
            r == self.vaddr() / (L4_SPAN as int),
    {
        self.addr / L4_SPAN
    }

    /// The address `off` spans further on.
    pub fn next(self, off: u64) -> (r: PTL4PageAddr)
        requires
            self.vaddr() + off * L4_SPAN <= u64::MAX,
        ensures
            r.vaddr() == self.vaddr() + off * L4_SPAN,
    {
        proof {
            use_type_invariant(self);
        }
        let step = off * L4_SPAN;
        let r = PTL4PageAddr { addr: self.addr + step };
        proof {
            assert(((self.addr + off * L4_SPAN) as int) % (L4_SPAN as int) == 0) by (nonlinear_arith)
                requires
                    self.addr % L4_SPAN == 0,
                    self.addr + off * L4_SPAN <= u64::MAX,
            ;
        }
        r
    }

    /// The address `off` spans back.
    pub fn prev(self, off: u64) -> (r: PTL4PageAddr)
        requires
            self.vaddr() - off * L4_SPAN >= 0,
        ensures
            r.vaddr() == self.vaddr() - off * L4_SPAN,
    {
        proof {
            use_type_invariant(self);
        }
        let step = off * L4_SPAN;
        let r = PTL4PageAddr { addr: self.addr - step };
        proof {
            assert(((self.addr - off * L4_SPAN) as int) % (L4_SPAN as int) == 0) by (nonlinear_arith)
                requires
                    self.addr % L4_SPAN == 0,
                    self.addr >= off * L4_SPAN,
            ;
        }
        r
    }

    /// The untyped address rounded down to this type's span.
    pub fn containing(a: VirtAddr) -> (r: PTL4PageAddr)
        ensures
            r.vaddr() == a.addr_spec() - a.addr_spec() % (L4_SPAN as int),
    {
        let addr = a.usize();
        PTL4PageAddr { addr: addr - addr % L4_SPAN }
    }

    /// The typed address at `a`, or `None` where `a` is not span-aligned.
    pub fn try_from(a: VirtAddr) -> (r: Option<PTL4PageAddr>)
        ensures
            match r {
                Some(v) => v.vaddr() == a.addr_spec() && a.addr_spec() % (L4_SPAN as int) == 0,
                None => a.addr_spec() % (L4_SPAN as int) != 0,
            },
    {
        let addr = a.usize();
        if addr % L4_SPAN == 0 {
            Some(PTL4PageAddr { addr })
        } else {
            None
        }
    }
}

impl HasVirtAddr for PTL4PageAddr {
    closed spec fn vaddr(&self) -> int {
        self.addr as int
    }

    fn usize(&self) -> u64 {
        self.addr
    }

    fn virt_addr(&self) -> VirtAddr {
        VirtAddr { addr: self.addr }
    }

    fn to_phys(&self) -> PhysAddr {
        PhysAddr { addr: self.addr - HIGH_ID_MAP_ADDR }
    }

    fn align_offset(&self, alignment: Alignment) -> u64 {
        alignment.align_down_offset(self.addr)
    }

    fn is_aligned(&self, alignment: Alignment) -> bool {
        alignment.is_aligned(self.addr)
    }
}

impl AlignedVirt for PTL4PageAddr {
    open spec fn span_spec() -> int {
        L4_SPAN as int
    }

    fn span() -> u64 {
        L4_SPAN
    }

    fn from_usize(n: u64) -> Self {
        PTL4PageAddr { addr: n }
    }
}


impl FrameAddr {
    /// The next order-0 frame.
    pub fn next_frame(self) -> (r: FrameAddr)
        requires
            self.paddr() + L1_SPAN <= u64::MAX,
        ensures
            r.paddr() == self.paddr() + L1_SPAN,
    {
        self.next(1)
    }
}

impl PageAddr {
    /// The next page.
    pub fn next_page(self) -> (r: PageAddr)
        requires
            self.vaddr() + L1_SPAN <= u64::MAX,
        ensures
            r.vaddr() == self.vaddr() + L1_SPAN,
    {
        self.next(1)
    }
}

} // verus!
