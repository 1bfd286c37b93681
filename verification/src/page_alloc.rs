//! The virtual-address page allocator: hands out newly backed pages from a
//! reserved kernel region, growing the page-table tree lazily and minting
//! each next sub-table before the current one runs dry.

use vstd::prelude::*;
use crate::addr::FrameAddr;
use crate::addr::HasVirtAddr;
use crate::addr::HasPhysAddr;
use crate::addr::PageAddr;
use crate::addr::L1_SPAN;
use crate::addr::L2_SPAN;
use crate::addr::L3_SPAN;
use crate::bitmap_frame_alloc::BitmapFrameAllocator;
use crate::entry::Entry;
use crate::page_table::PTL1;
use crate::page_table::PTL2;
use crate::page_table::PTL1Entries;
use crate::page_table::PTL1EntrySlot;
use crate::page_table::PTL2Entries;
use crate::page_table::PTL3Entries;

verus! {

/// Owns one cursor of remaining entries per level: the L1 cursor's position
/// is always the next virtual page to hand out; the L3 run mints new L2
/// tables.
pub struct PageAllocator {
    l3: PTL3Entries,
    curr_l2: PTL2Entries,
    curr_l1: PTL1Entries,
    allocation_start: PageAddr,
    mapped: Ghost<Map<int, int>>,
}

impl PageAllocator {
    /// The next virtual page this allocator would hand out.
    pub closed spec fn next_addr(self) -> int {
        self.curr_l1.addr_spec()
    }

    /// Entries queued in the active level-1 table.
    pub closed spec fn l1_left(self) -> int {
        self.curr_l1.len_spec()
    }

    /// Entries queued in the active level-2 table.
    pub closed spec fn l2_left(self) -> int {
        self.curr_l2.len_spec()
    }

    /// Entries left in the reserved level-3 run that mints new L2 tables.
    pub closed spec fn l3_left(self) -> int {
        self.l3.len_spec()
    }

    /// Which physical frame backs each virtual page handed out or consumed
    /// for a sub-table so far, by byte address.
    pub closed spec fn mapped_pages(self) -> Map<int, int> {
        self.mapped@
    }

    /// The reserved virtual region is used up: a new L2 table is due, and
    /// no L3 entry remains to mint it. No recovery path exists from here.
    pub open spec fn region_exhausted(self) -> bool {
        self.l3_left() == 0 && self.l2_left() == 0 && self.l1_left() == 2
    }

    /// The allocator's cursors stay ordered and within the address space:
    /// the L1 run sits below the L2 run, which sits below the L3 run, and
    /// the L1 run is never empty.
    pub closed spec fn wf(self) -> bool {
        &&& self.curr_l1.len_spec() >= 1
        &&& forall|i: int|
            0 <= i < self.curr_l1.len_spec() ==> #[trigger] self.curr_l1.entries_spec()[i] == 0
        &&& self.curr_l1.len_spec() <= 512
        &&& self.curr_l2.len_spec() <= 512
        &&& self.curr_l2.len_spec() >= 0
        &&& self.curr_l1.len_spec() == 1 ==> self.curr_l2.len_spec() >= 1
        &&& self.curr_l1.addr_spec() >= 0
        &&& self.curr_l1.addr_spec() + self.curr_l1.len_spec() * (L1_SPAN as int)
            <= self.curr_l2.addr_spec()
        &&& self.curr_l2.addr_spec() + self.curr_l2.len_spec() * (L2_SPAN as int)
            <= self.l3.addr_spec()
        &&& self.l3.addr_spec() + (self.l3.len_spec() + 1) * (L3_SPAN as int) <= u64::MAX
        &&& self.l3.len_spec() >= 0
        &&& forall|k: int|
            #[trigger] self.mapped_pages().dom().contains(k) ==> k < self.next_addr()
    }

    /// Builds the allocator from an L3 run and the two statically reserved
    /// seed tables with their backing frames.
    pub fn new(
        l3: PTL3Entries,
        init_l2: PTL2,
        init_l2_phys: FrameAddr,
        init_l1: PTL1,
        init_l1_phys: FrameAddr,
    ) -> (r: PageAllocator)
        requires
            l3.len_spec() >= 1,
            l3.addr_spec() >= 0,
            l3.addr_spec() + (l3.len_spec() + 1) * (L3_SPAN as int) <= u64::MAX,
            init_l2_phys.paddr() < 0x10_0000_0000_0000,
            init_l1_phys.paddr() < 0x10_0000_0000_0000,
        ensures
            r.wf(),
            r.next_addr() == l3.addr_spec(),
            r.l1_left() == 512,
            r.l2_left() == 511,
            r.l3_left() == l3.len_spec() - 1,
            r.mapped_pages() == Map::<int, int>::empty(),
    {
        let mut l3 = l3;
        proof {
            assert((l3.len_spec() + 1) * (L3_SPAN as int) >= 2 * (L3_SPAN as int))
                by (nonlinear_arith)
                requires
                    l3.len_spec() >= 1,
            ;
        }
        let mut l3_entry = l3.take_first();
        let mut init_l2_run = l3_entry.map_subtable(Entry::at_frame(init_l2_phys), PageAddr::containing(crate::addr::VirtAddr::new(0)));
        proof {
            assert((l3.len_spec() + 1) * (L3_SPAN as int) + (L3_SPAN as int) == (l3.len_spec() + 2)
                * (L3_SPAN as int)) by (nonlinear_arith);
            assert(512 * (L2_SPAN as int) == L3_SPAN as int);
        }
        let mut init_l2_slot = init_l2_run.take_first();
        let init_l1_run = init_l2_slot.map_subtable(
            Entry::at_frame(init_l1_phys),
            PageAddr::containing(crate::addr::VirtAddr::new(0)),
        );
        PageAllocator {
            l3,
            allocation_start: init_l1_run.addr(),
            curr_l2: init_l2_run,
            curr_l1: init_l1_run,
            mapped: Ghost(Map::empty()),
        }
    }

    /// Allocates a frame and maps the next L1 entry to it, handing back the
    /// now-valid page and its backing frame.
    fn map_page(&mut self, frames: &mut BitmapFrameAllocator) -> (r: Option<(PageAddr, FrameAddr)>)
        requires
            old(self).wf(),
            old(frames).wf(),
            old(self).l1_left() >= 2,
            old(self).l1_left() == 2 ==> old(self).curr_l2.len_spec() >= 1,
        ensures
            final(self).wf(),
            final(frames).wf(),
            final(self).l3_left() == old(self).l3_left(),
            match r {
                Option::Some(pf) => {
                    &&& pf.0.vaddr() == old(self).next_addr()
                    &&& final(self).next_addr() == old(self).next_addr() + L1_SPAN
                    &&& final(self).l1_left() == old(self).l1_left() - 1
                    &&& final(self).mapped_pages() == old(self).mapped_pages().insert(
                        pf.0.vaddr(),
                        pf.1.paddr(),
                    )
                    &&& pf.1.paddr() % 0x1000 == 0
                    &&& old(frames).alloc_post(*final(frames), pf.1.paddr() / 0x1000, 0)
                },
                Option::None => *final(self) == *old(self) && !final(frames).has_free_block(0),
            },
    {
        let frame = match frames.alloc_frame(crate::frame_order::FrameOrder(0)) {
            Some(f) => f,
            None => {
                proof {
                    old(frames).lemma_wf_bounds();
                }
                return None;
            },
        };
        proof {
            lemma_l1_step(*self);
        }
        let mut l1_entry = self.curr_l1.take_first();
        proof {
            lemma_zero_run_tail(old(self).curr_l1.entries_spec(), self.curr_l1.entries_spec());
        }
        let entry_value = Entry::at_frame(frame);
        proof {
            let ghost n = old(self).curr_l1.len_spec();
            assert(n * (L1_SPAN as int) == (n - 1) * (L1_SPAN as int) + (L1_SPAN as int))
                by (nonlinear_arith);
        }
        let page = l1_entry.map_page(entry_value);
        self.mapped = Ghost(self.mapped@.insert(page.vaddr(), frame.paddr()));
        proof {
            assert forall|k: int| #[trigger] self.mapped_pages().dom().contains(k) implies k
                < self.next_addr() by {
                if k != page.vaddr() {
                    assert(old(self).mapped_pages().dom().contains(k));
                }
            }
        }
        Some((page, frame))
    }

    /// Mints the next L2 table through the L3 run, backing it with a fresh
    /// frame mapped through the current L1 run.
    fn map_new_l2(&mut self, frames: &mut BitmapFrameAllocator) -> (r: bool)
        requires
            old(self).wf(),
            old(frames).wf(),
            old(self).l1_left() >= 2,
        ensures
            final(self).wf(),
            final(frames).wf(),
            final(self).next_addr() >= old(self).next_addr(),
            r ==> final(self).l1_left() == old(self).l1_left() - 1 && final(self).l2_left() == 512
                && final(self).next_addr() == old(self).next_addr() + L1_SPAN && final(self).l3_left() == old(self).l3_left() - 1,
            old(self).mapped_pages().submap_of(final(self).mapped_pages()),
            !r ==> *final(self) == *old(self) && (!final(frames).has_free_block(0) || final(self).l3_left() == 0),
    {
        if self.l3.len() == 0 {
            return false;
        }
        let ghost pre = *self;
        proof {
            lemma_l3_step(*self);
        }
        // allocate the backing frame before consuming any entry, so failure
        // leaves the allocator untouched
        let frame = match frames.alloc_frame(crate::frame_order::FrameOrder(0)) {
            Some(f) => f,
            None => {
                proof {
                    old(frames).lemma_wf_bounds();
                }
                return false;
            },
        };
        let mut l3_entry = self.l3.take_first();
        proof {
            lemma_l1_step(pre);
        }
        let mut l1_entry = self.curr_l1.take_first();
        proof {
            lemma_zero_run_tail(pre.curr_l1.entries_spec(), self.curr_l1.entries_spec());
        }
        let ptl2_virt = l1_entry.map_page(Entry::at_frame(frame));
        self.mapped = Ghost(self.mapped@.insert(ptl2_virt.vaddr(), frame.paddr()));
        let new_l2 = l3_entry.map_subtable(Entry::at_frame(frame), ptl2_virt);
        self.curr_l2 = new_l2;
        proof {
            assert forall|k: int| #[trigger] self.mapped_pages().dom().contains(k) implies k
                < self.next_addr() by {
                if k != ptl2_virt.vaddr() {
                    assert(pre.mapped_pages().dom().contains(k));
                }
            }
        }
        proof {
            assert(512 * (L2_SPAN as int) == L3_SPAN as int);
            assert((pre.l3.len_spec() + 1) * (L3_SPAN as int) == pre.l3.len_spec() * (
            L3_SPAN as int) + (L3_SPAN as int)) by (nonlinear_arith);
            assert(pre.curr_l2.len_spec() * (L2_SPAN as int) >= 0) by (nonlinear_arith)
                requires
                    pre.curr_l2.len_spec() >= 0,
            ;
            assert(pre.curr_l1.len_spec() * (L1_SPAN as int) == (pre.curr_l1.len_spec() - 1) * (
            L1_SPAN as int) + (L1_SPAN as int)) by (nonlinear_arith);
        }
        true
    }

    /// Mints the next L1 table through the current L2 run, backing it with a
    /// fresh frame mapped through the old L1 run's last entry.
    fn map_new_l1(&mut self, frames: &mut BitmapFrameAllocator) -> (r: bool)
        requires
            old(self).wf(),
            old(frames).wf(),
            old(self).l1_left() >= 1,
            old(self).curr_l2.len_spec() >= 1,
        ensures
            final(self).wf(),
            final(frames).wf(),
            final(self).next_addr() >= old(self).next_addr(),
            r ==> final(self).l1_left() == 512 && final(self).next_addr() >= old(self).next_addr()
                + L1_SPAN && final(self).l2_left() == old(self).l2_left() - 1 && final(self).l3_left() == old(self).l3_left(),
            old(self).mapped_pages().submap_of(final(self).mapped_pages()),
            !r ==> *final(self) == *old(self) && !final(frames).has_free_block(0),
    {
        let ghost pre = *self;
        let frame = match frames.alloc_frame(crate::frame_order::FrameOrder(0)) {
            Some(f) => f,
            None => {
                proof {
                    old(frames).lemma_wf_bounds();
                }
                return false;
            },
        };
        proof {
            lemma_l2_step(*self);
            lemma_l1_step(*self);
        }
        let mut l2_entry = self.curr_l2.take_first();
        let mut l1_entry = self.curr_l1.take_first();
        proof {
            lemma_zero_run_tail(pre.curr_l1.entries_spec(), self.curr_l1.entries_spec());
        }
        let ptl1_virt = l1_entry.map_page(Entry::at_frame(frame));
        self.mapped = Ghost(self.mapped@.insert(ptl1_virt.vaddr(), frame.paddr()));
        let new_l1 = l2_entry.map_subtable(Entry::at_frame(frame), ptl1_virt);
        self.curr_l1 = new_l1;
        proof {
            assert forall|k: int| #[trigger] self.mapped_pages().dom().contains(k) implies k
                < self.next_addr() by {
                if k != ptl1_virt.vaddr() {
                    assert(pre.mapped_pages().dom().contains(k));
                }
            }
        }
        proof {
            assert(512 * (L1_SPAN as int) == L2_SPAN as int);
            assert((pre.curr_l2.len_spec()) * (L2_SPAN as int) == (pre.curr_l2.len_spec() - 1) * (
            L2_SPAN as int) + (L2_SPAN as int)) by (nonlinear_arith);
            assert(pre.curr_l1.len_spec() * (L1_SPAN as int) >= 1 * (L1_SPAN as int))
                by (nonlinear_arith)
                requires
                    pre.curr_l1.len_spec() >= 1,
            ;
        }
        true
    }

    /// Pre-mints the next sub-tables before the cursors would exhaust, so no
    /// allocation stalls mid-way on a recursive table build.
    fn maybe_replenish(&mut self, frames: &mut BitmapFrameAllocator) -> (r: bool)
        requires
            old(self).wf(),
            old(frames).wf(),
        ensures
            final(self).wf(),
            final(frames).wf(),
            final(self).next_addr() >= old(self).next_addr(),
            final(self).l3_left() >= old(self).l3_left() - 1,
            old(self).mapped_pages().submap_of(final(self).mapped_pages()),
            r ==> final(self).l1_left() >= 2,
            r && final(self).l1_left() == 2 ==> final(self).l2_left() >= 1,
            !r ==> !final(frames).has_free_block(0) || final(self).region_exhausted(),
    {
        let ghost entry_state = *self;
        if self.curr_l2.len() == 0 && self.curr_l1.len() == 2 {
            if !self.map_new_l2(frames) {
                return false;
            }
        }
        let ghost mid_state = *self;
        if self.curr_l1.len() == 1 {
            if !self.map_new_l1(frames) {
                proof {
                    lemma_submap_chain(
                        entry_state.mapped_pages(),
                        mid_state.mapped_pages(),
                        self.mapped_pages(),
                    );
                }
                return false;
            }
        }
        proof {
            lemma_submap_chain(
                entry_state.mapped_pages(),
                mid_state.mapped_pages(),
                self.mapped_pages(),
            );
        }
        self.curr_l1.len() >= 2
    }

    /// Hands out the next virtual page, backed by a freshly allocated
    /// physical frame. Fails, handing out nothing, exactly when the
    /// physical-frame allocator is exhausted or the reserved virtual region
    /// is used up; the cursor only ever moves forward.
    pub fn alloc_page(&mut self, frames: &mut BitmapFrameAllocator) -> (r: Option<PageAddr>)
        requires
            old(self).wf(),
            old(frames).wf(),
        ensures
            final(self).wf(),
            final(frames).wf(),
            final(self).next_addr() >= old(self).next_addr(),
            final(self).l3_left() >= old(self).l3_left() - 1,
            old(self).mapped_pages().submap_of(final(self).mapped_pages()),
            match r {
                Option::Some(p) => {
                    &&& p.vaddr() % 0x1000 == 0
                    &&& old(self).next_addr() <= p.vaddr()
                    &&& p.vaddr() < final(self).next_addr()
                    &&& !old(self).mapped_pages().dom().contains(p.vaddr())
                    &&& final(self).mapped_pages().dom().contains(p.vaddr())
                    &&& final(self).mapped_pages()[p.vaddr()] % 0x1000 == 0
                    &&& !final(frames).frame_free(final(self).mapped_pages()[p.vaddr()] / 0x1000)
                },
                Option::None => !final(frames).has_free_block(0) || final(self).region_exhausted(),
            },
    {
        if !self.maybe_replenish(frames) {
            return None;
        }
        let ghost mid = *self;
        let ghost frames_mid = *frames;
        match self.map_page(frames) {
            Some(pf) => {
                proof {
                    use_type_invariant(&pf.0);
                    // the returned page maps the frame just drawn, which the
                    // frame allocator now holds as allocated
                    let b = pf.1.paddr() / 0x1000;
                    assert(crate::frame_order::pow2k(0) == 1);
                    assert(frames_mid.alloc_post(*frames, b, 0));
                    assert(frames.block_used(b, 0));
                    assert(!frames.frame_free(b));
                    assert(self.mapped_pages()[pf.0.vaddr()] == pf.1.paddr());
                    lemma_submap_chain(
                        old(self).mapped_pages(),
                        mid.mapped_pages(),
                        self.mapped_pages(),
                    );
                    if old(self).mapped_pages().dom().contains(pf.0.vaddr()) {
                        assert(pf.0.vaddr() < old(self).next_addr());
                    }
                }
                Some(pf.0)
            },
            None => None,
        }
    }

    /// Hands out the next raw L1 entry slot unmapped, still reading as a
    /// not-yet-present placeholder, letting the caller pick the frame and
    /// flags. Fails exactly when replenishment finds the physical-frame
    /// allocator exhausted or the reserved virtual region used up.
    pub fn alloc_l1_entry(&mut self, frames: &mut BitmapFrameAllocator) -> (r: Option<
        PTL1EntrySlot,
    >)
        requires
            old(self).wf(),
            old(frames).wf(),
        ensures
            final(self).wf(),
            final(frames).wf(),
            final(self).next_addr() >= old(self).next_addr(),
            final(self).l3_left() >= old(self).l3_left() - 1,
            match r {
                Option::Some(slot) => {
                    &&& old(self).next_addr() <= slot.addr_spec()
                    &&& slot.addr_spec() < final(self).next_addr()
                    &&& slot.entry_spec() == 0
                    &&& slot.entry_spec() & crate::entry::PRESENT_FLAG == 0
                },
                Option::None => !final(frames).has_free_block(0) || final(self).region_exhausted(),
            },
    {
        if !self.maybe_replenish(frames) {
            return None;
        }
        proof {
            lemma_l1_step(*self);
            assert((self.curr_l1.len_spec()) * (L1_SPAN as int) == (self.curr_l1.len_spec() - 1) * (
            L1_SPAN as int) + (L1_SPAN as int)) by (nonlinear_arith);
            assert(0u64 & crate::entry::PRESENT_FLAG == 0) by (bit_vector);
        }
        let ghost before = *self;
        let slot = self.curr_l1.take_first();
        proof {
            lemma_zero_run_tail(before.curr_l1.entries_spec(), self.curr_l1.entries_spec());
        }
        Some(slot)
    }
}

/// A map extended twice still extends the original.
proof fn lemma_submap_chain(m1: Map<int, int>, m2: Map<int, int>, m3: Map<int, int>)
    requires
        m1.submap_of(m2),
        m2.submap_of(m3),
    ensures
        m1.submap_of(m3),
{
    vstd::map_lib::lemma_submap_of_trans(m1, m2, m3);
}

/// Removing the front of an all-zero run leaves an all-zero run.
proof fn lemma_zero_run_tail(before: Seq<u64>, after: Seq<u64>)
    requires
        after == before.remove(0),
        before.len() >= 1,
        forall|i: int| 0 <= i < before.len() ==> #[trigger] before[i] == 0,
    ensures
        forall|i: int| 0 <= i < after.len() ==> #[trigger] after[i] == 0,
{
    assert forall|i: int| 0 <= i < after.len() implies #[trigger] after[i] == 0 by {
        assert(after[i] == before[i + 1]);
    }
}

/// The L1 cursor can advance one page without leaving the address space.
proof fn lemma_l1_step(a: PageAllocator)
    requires
        a.wf(),
        a.l1_left() >= 1,
    ensures
        a.next_addr() + L1_SPAN <= u64::MAX,
        a.next_addr() + a.l1_left() * (L1_SPAN as int) <= u64::MAX,
{
    assert(a.curr_l1.len_spec() * (L1_SPAN as int) >= 1 * (L1_SPAN as int)) by (nonlinear_arith)
        requires
            a.curr_l1.len_spec() >= 1,
    ;
    assert(a.curr_l2.len_spec() * (L2_SPAN as int) >= 0) by (nonlinear_arith)
        requires
            a.curr_l2.len_spec() >= 0,
    ;
    assert((a.l3.len_spec() + 1) * (L3_SPAN as int) >= 0) by (nonlinear_arith)
        requires
            a.l3.len_spec() >= 0,
    ;
}

/// The L2 cursor can advance one span without leaving the address space.
proof fn lemma_l2_step(a: PageAllocator)
    requires
        a.wf(),
        a.curr_l2.len_spec() >= 1,
    ensures
        a.curr_l2.addr_spec() + L2_SPAN <= u64::MAX,
{
    assert(a.curr_l2.len_spec() * (L2_SPAN as int) >= 1 * (L2_SPAN as int)) by (nonlinear_arith)
        requires
            a.curr_l2.len_spec() >= 1,
    ;
    assert((a.l3.len_spec() + 1) * (L3_SPAN as int) >= 0) by (nonlinear_arith)
        requires
            a.l3.len_spec() >= 0,
    ;
}

/// The L3 cursor can advance one span without leaving the address space.
proof fn lemma_l3_step(a: PageAllocator)
    requires
        a.wf(),
        a.l3.len_spec() >= 1,
    ensures
        a.l3.addr_spec() + L3_SPAN <= u64::MAX,
{
    assert((a.l3.len_spec() + 1) * (L3_SPAN as int) >= 2 * (L3_SPAN as int)) by (nonlinear_arith)
        requires
            a.l3.len_spec() >= 1,
    ;
}

/// Hands out the next virtual page from the page allocator, drawing its
/// backing frame from the physical-memory authority. Fails exactly when
/// frames or the reserved virtual region run out.
pub fn alloc_page(pages: &mut PageAllocator, frames: &mut BitmapFrameAllocator) -> (r: Option<
    PageAddr,
>)
    requires
        old(pages).wf(),
        old(frames).wf(),
    ensures
        final(pages).wf(),
        final(frames).wf(),
        final(pages).next_addr() >= old(pages).next_addr(),
        final(pages).l3_left() >= old(pages).l3_left() - 1,
        match r {
            Option::Some(p) => {
                &&& p.vaddr() % 0x1000 == 0
                &&& old(pages).next_addr() <= p.vaddr()
                &&& p.vaddr() < final(pages).next_addr()
            },
            Option::None => !final(frames).has_free_block(0) || final(pages).region_exhausted(),
        },
{
    pages.alloc_page(frames)
}

/// Hands out the next raw L1 entry slot, still reading not-yet-present.
/// Fails exactly when frames or the reserved virtual region run out.
pub fn alloc_l1_entry(pages: &mut PageAllocator, frames: &mut BitmapFrameAllocator) -> (r: Option<
    PTL1EntrySlot,
>)
    requires
        old(pages).wf(),
        old(frames).wf(),
    ensures
        final(pages).wf(),
        final(frames).wf(),
        final(pages).next_addr() >= old(pages).next_addr(),
        final(pages).l3_left() >= old(pages).l3_left() - 1,
        match r {
            Option::Some(slot) => {
                &&& old(pages).next_addr() <= slot.addr_spec()
                &&& slot.addr_spec() < final(pages).next_addr()
                &&& slot.entry_spec() == 0
                &&& slot.entry_spec() & crate::entry::PRESENT_FLAG == 0
            },
            Option::None => !final(frames).has_free_block(0) || final(pages).region_exhausted(),
        },
{
    pages.alloc_l1_entry(frames)
}

} // verus!
