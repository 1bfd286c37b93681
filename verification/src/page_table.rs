//! Typed views over the live 4-level page-table tree: raw entry values, one
//! entry slot per level, and runs of sibling entries consumed front to back.

use vstd::prelude::*;
use crate::addr::HasVirtAddr;
use crate::addr::PageAddr;
use crate::addr::PTL2PageAddr;
use crate::addr::PTL3PageAddr;
use crate::addr::PTL4PageAddr;
use crate::addr::AlignedVirt;
use crate::addr::L2_SPAN;
use crate::addr::L4_SPAN;
use crate::addr::L3_SPAN;
use crate::entry::Entry;
use crate::entry::PRESENT_FLAG;

verus! {

/// Entries per page table.
pub const ENTRY_COUNT: usize = 512;

/// A raw entry value whose present bit is clear: the hardware ignores it, so
/// the rest of the word carries arbitrary private payload.
#[derive(Clone, Copy, PartialEq, Eq, Structural)]
pub struct NonPresentUsize {
    bits: u64,
}

impl NonPresentUsize {
    /// The raw payload.
    pub closed spec fn bits_spec(&self) -> u64 {
        self.bits
    }

    /// Wraps `val` when its present bit is clear.
    pub fn try_new(val: u64) -> (r: Option<NonPresentUsize>)
        ensures
            match r {
                Some(v) => v.bits_spec() == val && val & PRESENT_FLAG == 0,
                None => val & PRESENT_FLAG != 0,
            },
    {
        if val & PRESENT_FLAG == 0 {
            Some(NonPresentUsize { bits: val })
        } else {
            None
        }
    }

    /// Wraps `val`, whose present bit must be clear.
    pub fn new(val: u64) -> (r: NonPresentUsize)
        requires
            val & PRESENT_FLAG == 0,
        ensures
            r.bits_spec() == val,
    {
        NonPresentUsize { bits: val }
    }

    /// The raw payload.
    pub fn to_usize(self) -> (r: u64)
        ensures
            r == self.bits_spec(),
    {
        self.bits
    }
}

/// What one page-table slot holds: a not-yet-present private payload, or a
/// present mapping.
#[derive(Clone, Copy, PartialEq, Eq, Structural)]
pub enum EntryValue {
    Raw(NonPresentUsize),
    Entry(Entry),
}

/// The raw bits an `EntryValue` stands for.
pub open spec fn entry_value_bits(v: EntryValue) -> u64 {
    match v {
        EntryValue::Raw(r) => r.bits_spec(),
        EntryValue::Entry(e) => e.bits_spec(),
    }
}

impl EntryValue {
    /// Classifies raw bits by their present bit.
    pub fn from_usize(v: u64) -> (r: EntryValue)
        ensures
            entry_value_bits(r) == (v | (v & PRESENT_FLAG)),
            (v & PRESENT_FLAG == 0) == (r matches EntryValue::Raw(_)),
    {
        proof {
            let x = v;
            assert(x & 1u64 == 0 ==> x | (x & 1u64) == x) by (bit_vector);
            assert(x & 1u64 != 0 ==> (x | 1u64) == (x | (x & 1u64))) by (bit_vector);
        }
        match NonPresentUsize::try_new(v) {
            Some(raw) => EntryValue::Raw(raw),
            None => EntryValue::Entry(Entry::from_usize(v)),
        }
    }

    /// The raw bits.
    pub fn to_usize(&self) -> (r: u64)
        ensures
            r == entry_value_bits(*self),
    {
        match self {
            EntryValue::Raw(v) => v.to_usize(),
            EntryValue::Entry(e) => e.to_usize(),
        }
    }
}

/// A transient view over one page-table entry, detached from its table for
/// the scope of a mutation.
pub struct EntrySlot {
    val: u64,
}

impl EntrySlot {
    /// The raw bits held.
    pub closed spec fn bits_spec(&self) -> u64 {
        self.val
    }

    /// A slot holding the raw bits `val`.
    pub fn from_raw(val: u64) -> (r: EntrySlot)
        ensures
            r.bits_spec() == val,
    {
        EntrySlot { val }
    }

    /// Reads the slot as a tagged value.
    pub fn get(&self) -> (r: EntryValue)
        ensures
            entry_value_bits(r) == (self.bits_spec() | (self.bits_spec() & PRESENT_FLAG)),
            (self.bits_spec() & PRESENT_FLAG == 0) == (r matches EntryValue::Raw(_)),
    {
        EntryValue::from_usize(self.val)
    }

    /// Writes a tagged value.
    pub fn set(&mut self, val: EntryValue)
        ensures
            final(self).bits_spec() == entry_value_bits(val),
    {
        self.val = val.to_usize();
    }

    /// Writes a tagged value and returns what was there.
    pub fn replace(&mut self, val: EntryValue) -> (r: EntryValue)
        ensures
            final(self).bits_spec() == entry_value_bits(val),
            entry_value_bits(r) == (old(self).bits_spec() | (old(self).bits_spec()
                & PRESENT_FLAG)),
            (old(self).bits_spec() & PRESENT_FLAG == 0) == (r matches EntryValue::Raw(_)),
    {
        let old_value = self.get();
        self.set(val);
        old_value
    }

    /// Clears the slot to an empty non-present payload and returns what was
    /// there.
    pub fn take(&mut self) -> (r: EntryValue)
        ensures
            final(self).bits_spec() == 0,
            entry_value_bits(r) == (old(self).bits_spec() | (old(self).bits_spec()
                & PRESENT_FLAG)),
            (old(self).bits_spec() & PRESENT_FLAG == 0) == (r matches EntryValue::Raw(_)),
    {
        proof {
            assert(0u64 & 1u64 == 0) by (bit_vector);
        }
        self.replace(EntryValue::Raw(NonPresentUsize::new(0)))
    }

    /// Reads the slot's private payload; the entry must not be present.
    pub fn get_raw(&self) -> (r: NonPresentUsize)
        requires
            self.bits_spec() & PRESENT_FLAG == 0,
        ensures
            r.bits_spec() == self.bits_spec(),
    {
        proof {
            let x = self.val;
            assert(x & 1u64 == 0 ==> x | (x & 1u64) == x) by (bit_vector);
        }
        match self.get() {
            EntryValue::Raw(v) => v,
            EntryValue::Entry(e) => NonPresentUsize::new(0),
        }
    }

    /// Reads the slot's mapping; the entry must be present.
    pub fn get_entry(&self) -> (r: Entry)
        requires
            self.bits_spec() & PRESENT_FLAG != 0,
        ensures
            r.bits_spec() == (self.bits_spec() | (self.bits_spec() & PRESENT_FLAG)),
    {
        match self.get() {
            EntryValue::Entry(e) => e,
            EntryValue::Raw(v) => Entry::empty(),
        }
    }

    /// Writes a private payload.
    pub fn set_raw(&mut self, raw: NonPresentUsize)
        ensures
            final(self).bits_spec() == raw.bits_spec(),
    {
        self.set(EntryValue::Raw(raw));
    }

    /// Writes a present mapping.
    pub fn set_entry(&mut self, entry: Entry)
        ensures
            final(self).bits_spec() == entry.bits_spec(),
    {
        self.set(EntryValue::Entry(entry));
    }
}

/// A page table at some level: 512 raw entries.
pub struct PTL1 {
    entries: Vec<u64>,
}

/// A level-2 page table.
pub struct PTL2 {
    entries: Vec<u64>,
}

/// A level-3 page table.
pub struct PTL3 {
    entries: Vec<u64>,
}

/// A level-4 page table.
pub struct PTL4 {
    entries: Vec<u64>,
}

impl PTL1 {
    /// The raw entries.
    pub closed spec fn entries_spec(&self) -> Seq<u64> {
        self.entries@
    }

    /// A zeroed table.
    pub fn zeroed() -> (r: PTL1)
        ensures
            r.entries_spec().len() == 512,
            forall|i: int| 0 <= i < 512 ==> r.entries_spec()[i] == 0,
    {
        PTL1 { entries: vec![0u64; 512] }
    }
}

impl PTL2 {
    /// The raw entries.
    pub closed spec fn entries_spec(&self) -> Seq<u64> {
        self.entries@
    }

    /// A zeroed table.
    pub fn zeroed() -> (r: PTL2)
        ensures
            r.entries_spec().len() == 512,
            forall|i: int| 0 <= i < 512 ==> r.entries_spec()[i] == 0,
    {
        PTL2 { entries: vec![0u64; 512] }
    }
}

impl PTL3 {
    /// The raw entries.
    pub closed spec fn entries_spec(&self) -> Seq<u64> {
        self.entries@
    }

    /// A zeroed table.
    pub fn zeroed() -> (r: PTL3)
        ensures
            r.entries_spec().len() == 512,
            forall|i: int| 0 <= i < 512 ==> r.entries_spec()[i] == 0,
    {
        PTL3 { entries: vec![0u64; 512] }
    }
}

impl PTL4 {
    /// The raw entries.
    pub closed spec fn entries_spec(&self) -> Seq<u64> {
        self.entries@
    }

    /// A zeroed table.
    pub fn zeroed() -> (r: PTL4)
        ensures
            r.entries_spec().len() == 512,
            forall|i: int| 0 <= i < 512 ==> r.entries_spec()[i] == 0,
    {
        PTL4 { entries: vec![0u64; 512] }
    }
}

/// A slot of a level-1 table: mapping it yields a usable page.
pub struct PTL1EntrySlot {
    entry: u64,
    addr: PageAddr,
}

/// A slot of a level-2 table: mapping it yields a level-1 table.
pub struct PTL2EntrySlot {
    entry: u64,
    addr: PTL2PageAddr,
}

/// A slot of a level-3 table: mapping it yields a level-2 table.
pub struct PTL3EntrySlot {
    entry: u64,
    addr: PTL3PageAddr,
}

/// A slot of a level-4 table: mapping it yields a level-3 table.
pub struct PTL4EntrySlot {
    entry: u64,
    addr: PTL4PageAddr,
}

impl PTL1EntrySlot {
    /// The virtual page this slot governs.
    pub closed spec fn addr_spec(&self) -> int {
        self.addr.vaddr()
    }

    /// The raw entry bits held.
    pub closed spec fn entry_spec(&self) -> u64 {
        self.entry
    }

    /// The address this slot governs.
    pub fn addr(&self) -> (r: PageAddr)
        ensures
            r.vaddr() == self.addr_spec(),
    {
        self.addr
    }

    /// A slot over a raw entry governing `addr`.
    pub fn from_entry_addr(entry: u64, addr: PageAddr) -> (r: PTL1EntrySlot)
        ensures
            r.addr_spec() == addr.vaddr(),
            r.entry_spec() == entry,
    {
        PTL1EntrySlot { entry, addr }
    }

    /// The slot as an untyped entry view.
    pub fn entry(&self) -> (r: EntrySlot)
        ensures
            r.bits_spec() == self.entry_spec(),
    {
        EntrySlot::from_raw(self.entry)
    }

    /// Writes a leaf mapping into the slot and hands back the now-valid
    /// page address.
    pub fn map_page(&mut self, entry: Entry) -> (r: PageAddr)
        ensures
            final(self).entry_spec() == entry.bits_spec(),
            final(self).addr_spec() == old(self).addr_spec(),
            r.vaddr() == old(self).addr_spec(),
    {
        self.entry = entry.to_usize();
        self.addr
    }
}

impl PTL2EntrySlot {
    /// The virtual range this slot governs.
    pub closed spec fn addr_spec(&self) -> int {
        self.addr.vaddr()
    }

    /// The raw entry bits held.
    pub closed spec fn entry_spec(&self) -> u64 {
        self.entry
    }

    /// The address this slot governs.
    pub fn addr(&self) -> (r: PTL2PageAddr)
        ensures
            r.vaddr() == self.addr_spec(),
    {
        self.addr
    }

    /// A slot over a raw entry governing `addr`.
    pub fn from_entry_addr(entry: u64, addr: PTL2PageAddr) -> (r: PTL2EntrySlot)
        ensures
            r.addr_spec() == addr.vaddr(),
            r.entry_spec() == entry,
    {
        PTL2EntrySlot { entry, addr }
    }

    /// The slot as an untyped entry view.
    pub fn entry(&self) -> (r: EntrySlot)
        ensures
            r.bits_spec() == self.entry_spec(),
    {
        EntrySlot::from_raw(self.entry)
    }

    /// Wires the sub-table entry into this slot and hands back a run over
    /// the freshly zeroed table's entries, starting at this slot's own
    /// address; `subtable_ptr` names where the zeroed backing page lives.
    pub fn map_subtable(&mut self, entry: Entry, subtable_ptr: PageAddr) -> (r: PTL1Entries)
        ensures
            final(self).entry_spec() == entry.bits_spec(),
            final(self).addr_spec() == old(self).addr_spec(),
            r.addr_spec() == old(self).addr_spec(),
            r.len_spec() == 512,
            r.entries_spec() == Seq::new(512, |i: int| 0u64),
    {
        proof {
            use_type_invariant(&self.addr);
        }
        self.entry = entry.to_usize();
        let base = PageAddr::from_usize(self.addr.usize());
        let run = PTL1Entries { entries: vec![0u64; 512], addr: base };
        proof {
            assert(run.entries_spec() =~= Seq::new(512, |i: int| 0u64));
        }
        run
    }
}

impl PTL3EntrySlot {
    /// The virtual range this slot governs.
    pub closed spec fn addr_spec(&self) -> int {
        self.addr.vaddr()
    }

    /// The raw entry bits held.
    pub closed spec fn entry_spec(&self) -> u64 {
        self.entry
    }

    /// The address this slot governs.
    pub fn addr(&self) -> (r: PTL3PageAddr)
        ensures
            r.vaddr() == self.addr_spec(),
    {
        self.addr
    }

    /// A slot over a raw entry governing `addr`.
    pub fn from_entry_addr(entry: u64, addr: PTL3PageAddr) -> (r: PTL3EntrySlot)
        ensures
            r.addr_spec() == addr.vaddr(),
            r.entry_spec() == entry,
    {
        PTL3EntrySlot { entry, addr }
    }

    /// The slot as an untyped entry view.
    pub fn entry(&self) -> (r: EntrySlot)
        ensures
            r.bits_spec() == self.entry_spec(),
    {
        EntrySlot::from_raw(self.entry)
    }

    /// Wires the sub-table entry into this slot and hands back a run over
    /// the freshly zeroed table's entries, starting at this slot's own
    /// address; `subtable_ptr` names where the zeroed backing page lives.
    pub fn map_subtable(&mut self, entry: Entry, subtable_ptr: PageAddr) -> (r: PTL2Entries)
        ensures
            final(self).entry_spec() == entry.bits_spec(),
            final(self).addr_spec() == old(self).addr_spec(),
            r.addr_spec() == old(self).addr_spec(),
            r.len_spec() == 512,
            r.entries_spec() == Seq::new(512, |i: int| 0u64),
    {
        proof {
            use_type_invariant(&self.addr);
        }
        self.entry = entry.to_usize();
        let base = PTL2PageAddr::from_usize(self.addr.usize());
        let run = PTL2Entries { entries: vec![0u64; 512], addr: base };
        proof {
            assert(run.entries_spec() =~= Seq::new(512, |i: int| 0u64));
        }
        run
    }
}

impl PTL4EntrySlot {
    /// The virtual range this slot governs.
    pub closed spec fn addr_spec(&self) -> int {
        self.addr.vaddr()
    }

    /// The raw entry bits held.
    pub closed spec fn entry_spec(&self) -> u64 {
        self.entry
    }

    /// The address this slot governs.
    pub fn addr(&self) -> (r: PTL4PageAddr)
        ensures
            r.vaddr() == self.addr_spec(),
    {
        self.addr
    }

    /// A slot over a raw entry governing `addr`.
    pub fn from_entry_addr(entry: u64, addr: PTL4PageAddr) -> (r: PTL4EntrySlot)
        ensures
            r.addr_spec() == addr.vaddr(),
            r.entry_spec() == entry,
    {
        PTL4EntrySlot { entry, addr }
    }

    /// The slot as an untyped entry view.
    pub fn entry(&self) -> (r: EntrySlot)
        ensures
            r.bits_spec() == self.entry_spec(),
    {
        EntrySlot::from_raw(self.entry)
    }

    /// Wires the sub-table entry into this slot and hands back a run over
    /// the freshly zeroed table's entries, starting at this slot's own
    /// address; `subtable_ptr` names where the zeroed backing page lives.
    pub fn map_subtable(&mut self, entry: Entry, subtable_ptr: PageAddr) -> (r: PTL3Entries)
        ensures
            final(self).entry_spec() == entry.bits_spec(),
            final(self).addr_spec() == old(self).addr_spec(),
            r.addr_spec() == old(self).addr_spec(),
            r.len_spec() == 512,
            r.entries_spec() == Seq::new(512, |i: int| 0u64),
    {
        proof {
            use_type_invariant(&self.addr);
        }
        self.entry = entry.to_usize();
        let base = PTL3PageAddr::from_usize(self.addr.usize());
        let run = PTL3Entries { entries: vec![0u64; 512], addr: base };
        proof {
            assert(run.entries_spec() =~= Seq::new(512, |i: int| 0u64));
        }
        run
    }
}

/// A run of sibling level-1 entries plus the page address of the first.
pub struct PTL1Entries {
    entries: Vec<u64>,
    addr: PageAddr,
}

/// A run of sibling level-2 entries plus the address of the first.
pub struct PTL2Entries {
    entries: Vec<u64>,
    addr: PTL2PageAddr,
}

/// A run of sibling level-3 entries plus the address of the first.
pub struct PTL3Entries {
    entries: Vec<u64>,
    addr: PTL3PageAddr,
}

impl PTL1Entries {
    /// The virtual page of the run's first entry.
    pub closed spec fn addr_spec(&self) -> int {
        self.addr.vaddr()
    }

    /// The raw entries left in the run.
    pub closed spec fn entries_spec(&self) -> Seq<u64> {
        self.entries@
    }

    /// How many entries are left.
    pub open spec fn len_spec(&self) -> int {
        self.entries_spec().len() as int
    }

    /// A run over `entries` whose first entry governs `addr`.
    pub fn from_entries_addr(entries: Vec<u64>, addr: PageAddr) -> (r: PTL1Entries)
        ensures
            r.addr_spec() == addr.vaddr(),
            r.len_spec() == entries@.len(),
    {
        PTL1Entries { entries, addr }
    }

    /// The run's base address.
    pub fn addr(&self) -> (r: PageAddr)
        ensures
            r.vaddr() == self.addr_spec(),
    {
        self.addr
    }

    /// How many entries are left.
    pub fn len(&self) -> (r: usize)
        ensures
            r == self.len_spec(),
    {
        self.entries.len()
    }

    /// The raw value of the entry at `ind`.
    pub fn get(&self, ind: usize) -> (r: EntryValue)
        requires
            (ind as int) < self.len_spec(),
        ensures
            entry_value_bits(r) == (self.entries_spec()[ind as int] | (self.entries_spec()[
                ind as int] & PRESENT_FLAG)),
    {
        EntryValue::from_usize(self.entries[ind])
    }

    /// Splits off the first entry, advancing the run's address one page.
    pub fn take_first(&mut self) -> (r: PTL1EntrySlot)
        requires
            old(self).len_spec() >= 1,
            old(self).addr_spec() + 0x1000 <= u64::MAX,
        ensures
            final(self).len_spec() == old(self).len_spec() - 1,
            final(self).addr_spec() == old(self).addr_spec() + 0x1000,
            final(self).entries_spec() == old(self).entries_spec().remove(0),
            r.addr_spec() == old(self).addr_spec(),
            r.entry_spec() == old(self).entries_spec()[0],
    {
        let first = self.entries.remove(0);
        let old_addr = self.addr;
        self.addr = self.addr.next(1);
        PTL1EntrySlot { entry: first, addr: old_addr }
    }

    /// Splits off the first `n` entries as their own run.
    pub fn take_first_n(&mut self, n: usize) -> (r: PTL1Entries)
        requires
            (n as int) <= old(self).len_spec(),
            old(self).addr_spec() + (n as int) * 0x1000 <= u64::MAX,
        ensures
            final(self).len_spec() == old(self).len_spec() - n,
            final(self).addr_spec() == old(self).addr_spec() + (n as int) * 0x1000,
            final(self).entries_spec() == old(self).entries_spec().subrange(
                n as int,
                old(self).len_spec(),
            ),
            r.addr_spec() == old(self).addr_spec(),
            r.len_spec() == n,
            r.entries_spec() == old(self).entries_spec().subrange(0, n as int),
    {
        let mut rest = self.entries.split_off(n);
        core::mem::swap(&mut rest, &mut self.entries);
        let old_addr = self.addr;
        self.addr = self.addr.next(n as u64);
        PTL1Entries { entries: rest, addr: old_addr }
    }

    /// Splits the run at `mid` into two adjacent runs.
    pub fn split_at(self, mid: usize) -> (r: (PTL1Entries, PTL1Entries))
        requires
            (mid as int) <= self.len_spec(),
            self.addr_spec() + (mid as int) * 0x1000 <= u64::MAX,
        ensures
            r.0.addr_spec() == self.addr_spec(),
            r.0.len_spec() == mid,
            r.0.entries_spec() == self.entries_spec().subrange(0, mid as int),
            r.1.addr_spec() == self.addr_spec() + (mid as int) * 0x1000,
            r.1.len_spec() == self.len_spec() - mid,
            r.1.entries_spec() == self.entries_spec().subrange(mid as int, self.len_spec()),
    {
        let mut me = self;
        let second = me.entries.split_off(mid);
        let second_addr = me.addr.next(mid as u64);
        (
            PTL1Entries { entries: me.entries, addr: me.addr },
            PTL1Entries { entries: second, addr: second_addr },
        )
    }
}

impl PTL2Entries {
    /// The virtual range of the run's first entry.
    pub closed spec fn addr_spec(&self) -> int {
        self.addr.vaddr()
    }

    /// The raw entries left in the run.
    pub closed spec fn entries_spec(&self) -> Seq<u64> {
        self.entries@
    }

    /// How many entries are left.
    pub open spec fn len_spec(&self) -> int {
        self.entries_spec().len() as int
    }

    /// A run over `entries` whose first entry governs `addr`.
    pub fn from_entries_addr(entries: Vec<u64>, addr: PTL2PageAddr) -> (r: PTL2Entries)
        ensures
            r.addr_spec() == addr.vaddr(),
            r.len_spec() == entries@.len(),
    {
        PTL2Entries { entries, addr }
    }

    /// How many entries are left.
    pub fn len(&self) -> (r: usize)
        ensures
            r == self.len_spec(),
    {
        self.entries.len()
    }

    /// Splits off the first entry, advancing the run's address one span.
    pub fn take_first(&mut self) -> (r: PTL2EntrySlot)
        requires
            old(self).len_spec() >= 1,
            old(self).addr_spec() + L2_SPAN <= u64::MAX,
        ensures
            final(self).len_spec() == old(self).len_spec() - 1,
            final(self).addr_spec() == old(self).addr_spec() + L2_SPAN,
            final(self).entries_spec() == old(self).entries_spec().remove(0),
            r.addr_spec() == old(self).addr_spec(),
            r.entry_spec() == old(self).entries_spec()[0],
    {
        let first = self.entries.remove(0);
        let old_addr = self.addr;
        self.addr = self.addr.next(1);
        PTL2EntrySlot { entry: first, addr: old_addr }
    }
}

/// A run of sibling level-4 entries plus the address of the first.
pub struct PTL4Entries {
    entries: Vec<u64>,
    addr: PTL4PageAddr,
}

impl PTL4Entries {
    /// The virtual range of the run's first entry.
    pub closed spec fn addr_spec(&self) -> int {
        self.addr.vaddr()
    }

    /// The raw entries left in the run.
    pub closed spec fn entries_spec(&self) -> Seq<u64> {
        self.entries@
    }

    /// How many entries are left.
    pub open spec fn len_spec(&self) -> int {
        self.entries_spec().len() as int
    }

    /// A run over `entries` whose first entry governs `addr`.
    pub fn from_entries_addr(entries: Vec<u64>, addr: PTL4PageAddr) -> (r: PTL4Entries)
        ensures
            r.addr_spec() == addr.vaddr(),
            r.len_spec() == entries@.len(),
            r.entries_spec() == entries@,
    {
        PTL4Entries { entries, addr }
    }

    /// How many entries are left.
    pub fn len(&self) -> (r: usize)
        ensures
            r == self.len_spec(),
    {
        self.entries.len()
    }

    /// Splits off the first entry, advancing the run's address one span.
    pub fn take_first(&mut self) -> (r: PTL4EntrySlot)
        requires
            old(self).len_spec() >= 1,
            old(self).addr_spec() + L4_SPAN <= u64::MAX,
        ensures
            final(self).len_spec() == old(self).len_spec() - 1,
            final(self).addr_spec() == old(self).addr_spec() + L4_SPAN,
            final(self).entries_spec() == old(self).entries_spec().remove(0),
            r.addr_spec() == old(self).addr_spec(),
            r.entry_spec() == old(self).entries_spec()[0],
    {
        let first = self.entries.remove(0);
        let old_addr = self.addr;
        self.addr = self.addr.next(1);
        PTL4EntrySlot { entry: first, addr: old_addr }
    }
}

impl PTL3Entries {
    /// The virtual range of the run's first entry.
    pub closed spec fn addr_spec(&self) -> int {
        self.addr.vaddr()
    }

    /// The raw entries left in the run.
    pub closed spec fn entries_spec(&self) -> Seq<u64> {
        self.entries@
    }

    /// How many entries are left.
    pub open spec fn len_spec(&self) -> int {
        self.entries_spec().len() as int
    }

    /// A run over `entries` whose first entry governs `addr`.
    pub fn from_entries_addr(entries: Vec<u64>, addr: PTL3PageAddr) -> (r: PTL3Entries)
        ensures
            r.addr_spec() == addr.vaddr(),
            r.len_spec() == entries@.len(),
    {
        PTL3Entries { entries, addr }
    }

    /// How many entries are left.
    pub fn len(&self) -> (r: usize)
        ensures
            r == self.len_spec(),
    {
        self.entries.len()
    }

    /// Splits off the first entry, advancing the run's address one span.
    pub fn take_first(&mut self) -> (r: PTL3EntrySlot)
        requires
            old(self).len_spec() >= 1,
            old(self).addr_spec() + L3_SPAN <= u64::MAX,
        ensures
            final(self).len_spec() == old(self).len_spec() - 1,
            final(self).addr_spec() == old(self).addr_spec() + L3_SPAN,
            final(self).entries_spec() == old(self).entries_spec().remove(0),
            r.addr_spec() == old(self).addr_spec(),
            r.entry_spec() == old(self).entries_spec()[0],
    {
        let first = self.entries.remove(0);
        let old_addr = self.addr;
        self.addr = self.addr.next(1);
        PTL3EntrySlot { entry: first, addr: old_addr }
    }
}

} // verus!
