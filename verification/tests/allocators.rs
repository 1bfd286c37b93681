use kernel_mm::addr::FrameAddr;
use kernel_mm::addr::HasPhysAddr;
use kernel_mm::addr::HasVirtAddr;
use kernel_mm::addr::PTL3PageAddr;
use kernel_mm::addr::AlignedPhys;
use kernel_mm::addr::AlignedVirt;
use kernel_mm::align::Alignment;
use kernel_mm::bitmap_frame_alloc::BitmapFrameAllocator;
use kernel_mm::bitmap_frame_alloc::alloc_frame;
use kernel_mm::bitmap_frame_alloc::alloc_frame_with_order;
use kernel_mm::bitmap_frame_alloc::free_frame;
use kernel_mm::bitmap_frame_alloc::free_frame_with_order;
use kernel_mm::bitmap_frame_alloc::get_bitmap_size;
use kernel_mm::bump_alloc::BumpAllocator;
use kernel_mm::entry::Entry;
use kernel_mm::frame_order::Avail;
use kernel_mm::frame_order::FrameOrder;
use kernel_mm::frame_order::GroupSize;
use kernel_mm::page_alloc::PageAllocator;
use kernel_mm::page_alloc::alloc_page;
use kernel_mm::page_table::PTL1;
use kernel_mm::page_table::PTL2;
use kernel_mm::page_table::PTL3Entries;
use kernel_mm::page_table::EntryValue;
use kernel_mm::entry::pte_indices_to_addr;
use kernel_mm::entry::addr_to_pte_indices;

/// A frame allocator over `frame_count` frames, all initially free.
fn fresh(frame_count: usize) -> BitmapFrameAllocator {
    let words = get_bitmap_size(frame_count);
    let mut bump = BumpAllocator::new(0x10_0000, (words as u64) * 8);
    let mut a = BitmapFrameAllocator::setup_bitmap_frame_allocator(&mut bump, frame_count);
    a.free_frame_range(0, frame_count);
    a.update_all();
    a
}

#[test]
fn alignment_arithmetic() {
    let a = Alignment::new(4096);
    assert_eq!(a.as_usize(), 4096);
    assert_eq!(a.size(), 4096);
    assert_eq!(a.shift(), 12);
    assert_eq!(a.mask(), 4095);
    assert_eq!(a.high_mask(), !4095u64);
    assert!(a.is_aligned(8192));
    assert!(!a.is_aligned(8193));
    assert_eq!(a.align_down(8193), 8192);
    assert_eq!(a.align_up(8193), 12288);
    assert_eq!(a.align_up(8192), 8192);
    assert_eq!(a.align_up_offset(8193), 4095);
    assert_eq!(a.align_down_offset(8193), 1);
    assert_eq!(a.checked_align_up(8193), Some(12288));
    assert_eq!(a.checked_align_up(u64::MAX - 5), None);
    let b = Alignment::new_from_shift(6);
    assert_eq!(b.size(), 64);
    assert_eq!(b.split_range(100, 520), (28, 128, 512, 8));
}

#[test]
fn entry_bits() {
    let f = FrameAddr::at_index(5);
    assert_eq!(f.usize(), 5 * 4096);
    let e = Entry::at_frame(f);
    assert_eq!(e.to_usize(), 5 * 4096 + 1);
    assert_eq!(e.frame().usize(), 5 * 4096);
    let mut e2 = Entry::empty();
    assert_eq!(e2.to_usize(), 1);
    e2.set_frame(FrameAddr::at_index(7));
    assert_eq!(e2.frame().usize(), 7 * 4096);
}

#[test]
fn entry_value_round_trip() {
    let raw = EntryValue::from_usize(0x42 << 1);
    assert!(matches!(raw, EntryValue::Raw(_)));
    assert_eq!(raw.to_usize(), 0x42 << 1);
    let present = EntryValue::from_usize(0x1001);
    assert!(matches!(present, EntryValue::Entry(_)));
    assert_eq!(present.to_usize(), 0x1001);
}

#[test]
fn pte_index_round_trip() {
    let p = pte_indices_to_addr(511, 0, 0, 0);
    assert_eq!(p.usize(), 0xFFFF_FF80_0000_0000);
    let (l4, l3, l2, l1) = addr_to_pte_indices(p);
    assert_eq!((l4, l3, l2, l1), (511, 0, 0, 0));
    let q = pte_indices_to_addr(1, 2, 3, 4);
    let (m4, m3, m2, m1) = addr_to_pte_indices(q);
    assert_eq!((m4, m3, m2, m1), (1, 2, 3, 4));
}

#[test]
fn merge_rule_values() {
    // both buddy halves fully free: one more than four fully free children
    let m = Avail::merge(GroupSize(1), [Avail(1), Avail(1), Avail(1), Avail(1)]);
    assert_eq!(m.0, 3);
    // one fully free half
    let m = Avail::merge(GroupSize(1), [Avail(1), Avail(1), Avail(0), Avail(1)]);
    assert_eq!(m.0, 2);
    // neither: plain maximum
    let m = Avail::merge(GroupSize(1), [Avail(0), Avail(1), Avail(0), Avail(1)]);
    assert_eq!(m.0, 1);
    let m = Avail::merge(GroupSize(2), [Avail(3), Avail(3), Avail(3), Avail(3)]);
    assert_eq!(m.0, 5);
}

#[test]
fn bump_carving() {
    let mut b = BumpAllocator::new(0x1000, 256);
    assert_eq!(b.remaining(), 256);
    let p = b.alloc_bytes(16);
    assert_eq!(p, 0x1000);
    assert_eq!(b.remaining(), 240);
    let q = b.alloc_layout(8, Alignment::new(64));
    assert_eq!(q % 64, 0);
    assert!(q >= 0x1010);
    assert_eq!(b.curr_ptr(), q + 8);
}

#[test]
fn alloc_and_free_round_trip_returns_same_frame() {
    let mut a = fresh(1024);
    let first = alloc_frame_with_order(&mut a, FrameOrder(3)).unwrap();
    free_frame_with_order(&mut a, first, FrameOrder(3));
    let again = alloc_frame_with_order(&mut a, FrameOrder(3)).unwrap();
    assert_eq!(first.usize(), again.usize());
}

#[test]
fn odd_order_allocation() {
    let mut a = fresh(1024);
    let b1 = alloc_frame_with_order(&mut a, FrameOrder(1)).unwrap();
    let b2 = alloc_frame_with_order(&mut a, FrameOrder(1)).unwrap();
    assert_eq!(b1.usize() % (2 * 4096), 0);
    assert_eq!(b2.usize() % (2 * 4096), 0);
    assert_ne!(b1.usize(), b2.usize());
    free_frame_with_order(&mut a, b1, FrameOrder(1));
    let b3 = alloc_frame_with_order(&mut a, FrameOrder(1)).unwrap();
    assert_eq!(b3.usize(), b1.usize());
}

#[test]
fn boundary_order_0_exhaustion() {
    // a freshly initialized 64-frame region serves exactly 64 order-0
    // allocations, then fails; freeing all reopens the largest order the
    // region's bitmap tiers track (order 4: the top tier holds 16-frame
    // groups for a 64-frame region)
    let n: usize = 64;
    let mut a = fresh(n);
    let mut got = Vec::new();
    for _ in 0..n {
        let f = alloc_frame(&mut a).unwrap();
        got.push(f);
    }
    assert!(alloc_frame(&mut a).is_none());
    // all distinct
    let mut idx: Vec<u64> = got.iter().map(|f| f.usize() / 4096).collect();
    idx.sort();
    for (i, v) in idx.iter().enumerate() {
        assert_eq!(*v, i as u64);
    }
    for f in got {
        free_frame(&mut a, f);
    }
    let big = alloc_frame_with_order(&mut a, FrameOrder(4)).unwrap();
    assert_eq!(big.usize(), 0);
    assert!(alloc_frame_with_order(&mut a, FrameOrder(6)).is_none());
}

#[test]
fn no_double_allocation_stress() {
    let mut a = fresh(4096);
    let mut held: Vec<(u64, u8)> = Vec::new();
    let orders = [0u8, 3, 1, 5, 2, 0, 4, 9, 6, 1, 0, 7, 2, 3, 8];
    for (i, &k) in orders.iter().enumerate() {
        if let Some(f) = alloc_frame_with_order(&mut a, FrameOrder(k)) {
            let start = f.usize() / 4096;
            let len = 1u64 << k;
            assert_eq!(start % len, 0, "block not aligned to its order");
            for &(s2, k2) in &held {
                let len2 = 1u64 << k2;
                assert!(
                    start + len <= s2 || s2 + len2 <= start,
                    "blocks overlap: {}+{} vs {}+{}",
                    start,
                    len,
                    s2,
                    len2
                );
            }
            held.push((start, k));
        }
        // free every third block to stir splits and merges
        if i % 3 == 2 && !held.is_empty() {
            let (s2, k2) = held.remove(0);
            free_frame_with_order(
                &mut a,
                FrameAddr::from_usize(s2 * 4096),
                FrameOrder(k2),
            );
        }
    }
}

#[test]
fn concrete_scenario_4608_frames() {
    // a synthetic usable range of exactly 4608 order-0 frames (18 MiB),
    // with a boot reservation leaving two order-9 blocks and a misaligned
    // 512-frame remainder
    let n: usize = 4608;
    let words = get_bitmap_size(n);
    let mut bump = BumpAllocator::new(0x10_0000, (words as u64) * 8);
    let mut a = BitmapFrameAllocator::setup_bitmap_frame_allocator(&mut bump, n);
    a.free_frame_range(0, n);
    // the boot reservation: everything but frames [256, 768) and [3584, 4608)
    a.use_frame_range(0, 256);
    a.use_frame_range(768, 3584);
    a.update_all();

    let b1 = alloc_frame_with_order(&mut a, FrameOrder(9)).unwrap();
    let b2 = alloc_frame_with_order(&mut a, FrameOrder(9)).unwrap();
    let two_mib = 512 * 4096;
    assert_eq!(b1.usize() % two_mib, 0);
    assert_eq!(b2.usize() % two_mib, 0);
    assert_ne!(b1.usize(), b2.usize());
    assert!(alloc_frame_with_order(&mut a, FrameOrder(9)).is_none());

    // the 512-frame remainder still serves order 0, exactly 512 times
    for _ in 0..512 {
        assert!(alloc_frame(&mut a).is_some());
    }
    assert!(alloc_frame(&mut a).is_none());
}

#[test]
fn page_allocator_progress() {
    // 512*512 + 1 allocations force one L2 replenishment and many L1
    // replenishments; every page comes back distinct, increasing, aligned
    let mut frames = fresh(300_000);
    let base = pte_indices_to_addr(511, 0, 0, 0);
    let l3_base = PTL3PageAddr::from_usize(base.usize());
    let l3 = PTL3Entries::from_entries_addr(vec![0u64; 511], l3_base);
    let mut pages = PageAllocator::new(
        l3,
        PTL2::zeroed(),
        FrameAddr::at_index(2),
        PTL1::zeroed(),
        FrameAddr::at_index(3),
    );
    let mut last: Option<u64> = None;
    let count = 512 * 512 + 1;
    for _ in 0..count {
        let p = alloc_page(&mut pages, &mut frames).expect("page allocator stalled");
        let v = p.usize();
        assert_eq!(v % 4096, 0);
        if let Some(prev) = last {
            assert!(v > prev, "pages not strictly increasing");
        }
        last = Some(v);
    }
}

#[test]
fn setup_starts_all_used() {
    let words = get_bitmap_size(256);
    let mut bump = BumpAllocator::new(0x4000, (words as u64) * 8);
    let mut a = BitmapFrameAllocator::setup_bitmap_frame_allocator(&mut bump, 256);
    a.update_all();
    assert!(alloc_frame(&mut a).is_none());
}

#[test]
fn init_from_usable_ranges() {
    // one usable range starting unaligned: the bitmaps are carved from its
    // front, and only whole usable frames outside the carve come back free
    let usable: Vec<(u64, u64)> = vec![(0x1800, 0x200000), (0x300000, 0x400000)];
    let (mut a, bitmap_addr, bitmap_bytes) =
        kernel_mm::bitmap_frame_alloc::init(&usable).unwrap();
    assert!(bitmap_addr >= 0x1800);
    assert!(bitmap_addr % 8 == 0);
    // every allocated frame lies in a usable range, clear of the bitmaps
    let mut seen = 0u64;
    while let Some(f) = alloc_frame(&mut a) {
        let s = f.usize();
        let e = s + 4096;
        assert!(
            (s >= 0x2000 && e <= 0x200000) || (s >= 0x300000 && e <= 0x400000),
            "frame outside usable memory: {s:#x}"
        );
        assert!(e <= bitmap_addr || s >= bitmap_addr + bitmap_bytes);
        seen += 1;
    }
    // both ranges minus the frames overlapping the carve
    let mut expected = 0u64;
    for f in 0u64..1024 {
        let s = f * 4096;
        let e = s + 4096;
        let usable_frame = (s >= 0x2000 && e <= 0x200000) || (s >= 0x300000 && e <= 0x400000);
        let carved = s < bitmap_addr + bitmap_bytes && bitmap_addr < e;
        if usable_frame && !carved {
            expected += 1;
        }
    }
    assert_eq!(seen, expected);
}

#[test]
fn ranges_difference_subtracts_reserved_spans() {
    // usable memory minus the kernel-image and boot-info spans
    let usable: Vec<(u64, u64)> = vec![(0x0, 0x9F000), (0x100000, 0x800000)];
    let reserved: Vec<(u64, u64)> = vec![(0x0, 0x200000), (0x300000, 0x310000)];
    let diff = kernel_mm::bitmap_frame_alloc::ranges_difference(&usable, &reserved);
    assert_eq!(diff, vec![(0x200000, 0x300000), (0x310000, 0x800000)]);
    // a reserved span that covers a whole usable range removes it
    let diff2 = kernel_mm::bitmap_frame_alloc::ranges_difference(
        &vec![(10, 20), (30, 40)],
        &vec![(5, 25)],
    );
    assert_eq!(diff2, vec![(30, 40)]);
    // and an empty reserved list changes nothing
    let diff3 = kernel_mm::bitmap_frame_alloc::ranges_difference(&usable, &Vec::new());
    assert_eq!(diff3, usable);
}

#[test]
fn init_after_range_subtraction() {
    // the boot flow: subtract the reserved spans, then initialize over what
    // is left
    let reported: Vec<(u64, u64)> = vec![(0x0, 0x400000)];
    let reserved: Vec<(u64, u64)> = vec![(0x0, 0x200000)];
    let usable = kernel_mm::bitmap_frame_alloc::ranges_difference(&reported, &reserved);
    let (mut a, bitmap_addr, bitmap_bytes) =
        kernel_mm::bitmap_frame_alloc::init(&usable).unwrap();
    assert!(bitmap_addr >= 0x200000);
    let mut seen = 0u64;
    while let Some(f) = alloc_frame(&mut a) {
        let s = f.usize();
        assert!(s >= 0x200000 && s + 4096 <= 0x400000);
        assert!(s + 4096 <= bitmap_addr || s >= bitmap_addr + bitmap_bytes);
        seen += 1;
    }
    assert!(seen > 0);
}

#[test]
fn init_reports_impossibility() {
    // too few frames for one bitmap tier
    assert!(kernel_mm::bitmap_frame_alloc::init(&vec![(0x0, 0x2000)]).is_none());
    // no range can host the bitmap storage (each is smaller than the
    // 240 bytes the bitmaps of a 1024-frame map take)
    assert!(kernel_mm::bitmap_frame_alloc::init(
        &vec![(0x0, 0x80), (0x3FFF80, 0x400000)]
    )
    .is_none());
}

#[test]
fn alloc_l1_entry_hands_out_placeholders() {
    let mut frames = fresh(4096);
    let base = pte_indices_to_addr(511, 0, 0, 0);
    let l3 = PTL3Entries::from_entries_addr(
        vec![0u64; 511],
        PTL3PageAddr::from_usize(base.usize()),
    );
    let mut pages = PageAllocator::new(
        l3,
        PTL2::zeroed(),
        FrameAddr::at_index(2),
        PTL1::zeroed(),
        FrameAddr::at_index(3),
    );
    let slot = pages.alloc_l1_entry(&mut frames).unwrap();
    assert!(matches!(slot.entry().get(), EntryValue::Raw(_)));
    let slot2 = pages.alloc_l1_entry(&mut frames).unwrap();
    assert!(slot2.addr().usize() > slot.addr().usize());
}
