//! Sv39 page tables: page table entries, page mappers and the three-level table.
use vstd::prelude::*;
use std::collections::BTreeMap;
use vstd::std_specs::iter::IteratorSpec;
use riscv::register::satp::Mode;
use crate::allocator::BTreeSetFrameAllocator;
use crate::bits::{get_bit, get_bits, set_bits, spec_get_bits, spec_set_bits, fits_bits};
use crate::configs::MEMORY_PAGE_BYTE_SIZE;
use crate::error::KernelError;
use crate::frame::{alloc_frame, dealloc_frame, FrameTracker};

verus! {

broadcast use vstd::laws_cmp::group_laws_cmp;

/// Number of entries in one page mapper.
pub const PTE_COUNT: usize = 512;
/// Number of levels of an Sv39 page table.
pub const PAGE_LEVEL: usize = 3;
/// Physical page numbers are below this bound (44 bits).
pub const PPN_LIMIT: u64 = 0x1000_0000_0000;
/// Address space ids are below this bound (16 bits).
pub const ASID_LIMIT: usize = 0x1_0000;
/// Virtual page numbers of Sv39 are below this bound (27 bits).
pub const VPN_LIMIT: usize = 0x800_0000;
/// The highest address space id.
pub const MAX_TASK_ID: usize = 0xffff;

/// The value of the MMU mode field for Sv39, read from `riscv::register::satp::Mode`,
/// whose source gives `Sv39` the discriminant 8.
#[verifier::external_body]
fn sv39_mode() -> (r: u64)
    ensures
        r == 8,
{
    Mode::Sv39 as u64
}

/// The flags of a page table entry.
#[derive(Clone, Copy, PartialEq, Eq, Structural, Debug)]
pub struct PTEFlags {
    pub bits: u8,
}

impl PTEFlags {
    /// Is valid.
    pub const V: u8 = 1;
    /// Is readable.
    pub const R: u8 = 2;
    /// Is writeable.
    pub const W: u8 = 4;
    /// Is executable.
    pub const X: u8 = 8;
    /// Is user accessible.
    pub const U: u8 = 16;
    /// Global mapping.
    pub const G: u8 = 32;
    /// Has been accessed.
    pub const A: u8 = 64;
    /// Is dirty.
    pub const D: u8 = 128;

    /// The raw bits.
    pub fn bits(&self) -> (r: u8)
        ensures
            r == self.bits,
    {
        self.bits
    }

    /// The flags with the given bits; every bit of a byte is a defined flag, so this
    /// always succeeds.
    pub fn from_bits(bits: u8) -> (r: Option<PTEFlags>)
        ensures
            r == Some(PTEFlags { bits }),
    {
        Some(PTEFlags { bits })
    }

    /// Whether all flags of `other` are set.
    pub fn contains(&self, other: PTEFlags) -> (r: bool)
        ensures
            r == (self.bits & other.bits == other.bits),
    {
        self.bits & other.bits == other.bits
    }
}

/// The abstract permission flags of a page.
#[derive(Clone, Copy, PartialEq, Eq, Structural, Debug)]
pub struct PageTableFlags {
    pub bits: u8,
}

impl PageTableFlags {
    /// No permission.
    pub fn empty() -> (r: PageTableFlags)
        ensures
            r.bits == 0,
    {
        PageTableFlags { bits: 0 }
    }
    /// Readable.
    pub fn r() -> (r: PageTableFlags)
        ensures
            r.bits == 2,
    {
        PageTableFlags { bits: 2 }
    }
    /// Writeable.
    pub fn w() -> (r: PageTableFlags)
        ensures
            r.bits == 4,
    {
        PageTableFlags { bits: 4 }
    }
    /// Executable.
    pub fn x() -> (r: PageTableFlags)
        ensures
            r.bits == 8,
    {
        PageTableFlags { bits: 8 }
    }
    /// User accessible.
    pub fn u() -> (r: PageTableFlags)
        ensures
            r.bits == 16,
    {
        PageTableFlags { bits: 16 }
    }
    /// Readable and executable.
    pub fn rx() -> (r: PageTableFlags)
        ensures
            r.bits == 10,
    {
        PageTableFlags { bits: 10 }
    }
    /// Readable and writeable.
    pub fn rw() -> (r: PageTableFlags)
        ensures
            r.bits == 6,
    {
        PageTableFlags { bits: 6 }
    }
    /// Readable, executable and user accessible.
    pub fn rxu() -> (r: PageTableFlags)
        ensures
            r.bits == 26,
    {
        PageTableFlags { bits: 26 }
    }
    /// Readable, writeable and user accessible.
    pub fn rwu() -> (r: PageTableFlags)
        ensures
            r.bits == 22,
    {
        PageTableFlags { bits: 22 }
    }

    /// The raw bits.
    pub fn bits(&self) -> (r: u8)
        ensures
            r == self.bits,
    {
        self.bits
    }

    /// Whether no flag is set.
    pub fn is_empty(&self) -> (r: bool)
        ensures
            r == (self.bits == 0),
    {
        self.bits == 0
    }

    /// The flags set in either `self` or `other`.
    pub fn union(&self, other: PageTableFlags) -> (r: PageTableFlags)
        ensures
            r.bits == self.bits | other.bits,
    {
        PageTableFlags { bits: self.bits | other.bits }
    }
}

/// The physical page number field of a raw entry.
pub open spec fn pte_bits_ppn(bits: u64) -> usize {
    spec_get_bits(bits, 10, 54) as usize
}

/// The entry `PageTableEntry::new` makes of `ppn` and `flags`.
pub open spec fn spec_pte_new(ppn: usize, flags: u8) -> PageTableEntry {
    PageTableEntry { bits: spec_set_bits(spec_set_bits(0, 10, 54, ppn as u64), 0, 8, flags as u64) }
}

/// An Sv39 page table entry: reserved bits 54..64, the physical page number in bits
/// 10..54 and the flags in bits 0..8.
#[derive(Clone, Copy, PartialEq, Eq, Structural, Debug)]
pub struct PageTableEntry {
    pub bits: u64,
}

proof fn lemma_pte_fields(ppn: u64, flags: u64)
    requires
        ppn < 0x1000_0000_0000,
        flags < 256,
    ensures
        fits_bits(ppn, 44),
        fits_bits(flags, 8),
        spec_get_bits(spec_set_bits(spec_set_bits(0, 10, 54, ppn), 0, 8, flags), 10, 54) == ppn,
        spec_set_bits(spec_set_bits(0, 10, 54, ppn), 0, 8, flags) & 0xff == flags,
        (spec_set_bits(spec_set_bits(0, 10, 54, ppn), 0, 8, flags) & 1 == 1) == (flags & 1 == 1),
{
    assert(fits_bits(ppn, 44)) by (bit_vector)
        requires
            ppn < 0x1000_0000_0000,
    ;
    assert(fits_bits(flags, 8)) by (bit_vector)
        requires
            flags < 256,
    ;
    assert(spec_get_bits(spec_set_bits(spec_set_bits(0, 10, 54, ppn), 0, 8, flags), 10, 54) == ppn)
        by (bit_vector)
        requires
            ppn < 0x1000_0000_0000,
            flags < 256,
    ;
    assert(spec_set_bits(spec_set_bits(0, 10, 54, ppn), 0, 8, flags) & 0xff == flags)
        by (bit_vector)
        requires
            ppn < 0x1000_0000_0000,
            flags < 256,
    ;
    assert((spec_set_bits(spec_set_bits(0, 10, 54, ppn), 0, 8, flags) & 1 == 1) == (flags & 1 == 1))
        by (bit_vector)
        requires
            ppn < 0x1000_0000_0000,
            flags < 256,
    ;
}

proof fn lemma_low_byte(bits: u64)
    ensures
        (bits as u8) as u64 == bits & 0xff,
        ((bits as u8) & 1u8 == 1u8) == (bits & 1 == 1),
{
    assert((bits as u8) as u64 == bits & 0xff) by (bit_vector);
    assert(((bits as u8) & 1u8 == 1u8) == (bits & 1 == 1)) by (bit_vector);
}

impl PageTableEntry {
    /// The physical page number the entry refers to.
    pub open spec fn spec_ppn(&self) -> usize {
        pte_bits_ppn(self.bits)
    }

    /// The flags of the entry.
    pub open spec fn spec_flags(&self) -> u8 {
        (self.bits & 0xff) as u8
    }

    /// The valid flag is set.
    pub open spec fn spec_valid(&self) -> bool {
        self.bits & 1 == 1
    }

    /// An entry referring to frame `ppn` with `flags`.
    pub fn new(ppn: usize, flags: PTEFlags) -> (r: Self)
        requires
            ppn < PPN_LIMIT,
        ensures
            r == spec_pte_new(ppn, flags.bits),
            r.spec_ppn() == ppn,
            r.spec_flags() == flags.bits,
            r.spec_valid() == (flags.bits & 1 == 1),
    {
        proof {
            lemma_pte_fields(ppn as u64, flags.bits as u64);
        }
        let mut bits: u64 = 0;
        set_bits(&mut bits, 10, 54, ppn as u64);
        set_bits(&mut bits, 0, 8, flags.bits() as u64);
        Self { bits }
    }

    /// An invalid entry with every bit clear.
    pub fn empty() -> (r: Self)
        ensures
            r.bits == 0,
            !r.spec_valid(),
            r.spec_ppn() == 0,
    {
        assert(!(0u64 & 1 == 1)) by (bit_vector);
        assert(spec_get_bits(0, 10, 54) == 0) by (bit_vector);
        PageTableEntry { bits: 0 }
    }

    /// The physical page number the entry refers to.
    pub fn ppn(&self) -> (r: usize)
        ensures
            r == self.spec_ppn(),
    {
        get_bits(self.bits, 10, 54) as usize
    }

    /// The flags of the entry.
    pub fn flags(&self) -> (r: PTEFlags)
        ensures
            r.bits == self.spec_flags(),
    {
        proof {
            lemma_low_byte(self.bits);
        }
        PTEFlags::from_bits(self.bits as u8).unwrap()
    }

    /// Whether the entry is valid.
    pub fn is_valid(&self) -> (r: bool)
        ensures
            r == self.spec_valid(),
    {
        proof {
            lemma_low_byte(self.bits);
        }
        self.flags().contains(PTEFlags { bits: PTEFlags::V })
    }
}

/// Physical page number of a physical address: its bits 12..56.
pub open spec fn spec_ppn_of(pa: usize) -> usize {
    spec_get_bits(pa as u64, 12, 56) as usize
}

/// Virtual page number of a virtual address: its bits 12..39.
pub open spec fn spec_vpn_of(va: usize) -> usize {
    spec_get_bits(va as u64, 12, 39) as usize
}

/// Offset of an address inside its page: its bits 0..12.
pub open spec fn spec_offset_of(a: usize) -> usize {
    spec_get_bits(a as u64, 0, 12) as usize
}

proof fn lemma_address_fields(x: u64)
    ensures
        spec_get_bits(x, 12, 39) == (x / 4096) % 0x800_0000,
        spec_get_bits(x, 12, 56) == (x / 4096) % 0x1000_0000_0000,
        spec_get_bits(x, 0, 12) == x % 4096,
        spec_get_bits(x, 0, 9) == x % 512,
        spec_get_bits(x, 9, 18) == (x / 512) % 512,
        spec_get_bits(x, 18, 27) == (x / 0x4_0000) % 512,
{
    assert(spec_get_bits(x, 12, 39) == (x / 4096) % 0x800_0000) by (bit_vector);
    assert(spec_get_bits(x, 12, 56) == (x / 4096) % 0x1000_0000_0000) by (bit_vector);
    assert(spec_get_bits(x, 0, 12) == x % 4096) by (bit_vector);
    assert(spec_get_bits(x, 0, 9) == x % 512) by (bit_vector);
    assert(spec_get_bits(x, 9, 18) == (x / 512) % 512) by (bit_vector);
    assert(spec_get_bits(x, 18, 27) == (x / 0x4_0000) % 512) by (bit_vector);
}

/// First virtual address of page `vpn` as a 64-bit word: `vpn << 12` with bits
/// 39..64 copied from bit 38, as Sv39 requires.
pub open spec fn spec_base_va64(vpn: usize) -> u64 {
    let va: u64 = (vpn as u64) << 12u64;
    if va & (1u64 << 38u64) != 0 {
        spec_set_bits(va, 39, 64, 0x1ff_ffff)
    } else {
        va
    }
}

/// First virtual address of page `vpn`.
pub open spec fn spec_base_va(vpn: usize) -> usize {
    spec_base_va64(vpn) as usize
}

/// Base addresses of the pages in the lower half of the Sv39 space are the page
/// number times the page size; those of the upper half are sign-extended.
pub proof fn lemma_base_va(vpn: usize)
    requires
        vpn < VPN_LIMIT,
    ensures
        vpn < 0x400_0000 ==> spec_base_va64(vpn) == vpn * 4096,
        vpn >= 0x400_0000 ==> spec_base_va64(vpn) == vpn * 4096 + 0xffff_ff80_0000_0000,
{
    let v = vpn as u64;
    assert(v < 0x400_0000 ==> (v << 12u64) & (1u64 << 38u64) == 0 && (v << 12u64) == v * 4096)
        by (bit_vector)
        requires
            v < 0x800_0000,
    ;
    assert(v >= 0x400_0000 ==> (v << 12u64) & (1u64 << 38u64) != 0 && spec_set_bits(v << 12u64, 39, 64, 0x1ff_ffff)
        == v * 4096 + 0xffff_ff80_0000_0000) by (bit_vector)
        requires
            v < 0x800_0000,
    ;
}

/// The table's key for a virtual page number: its low 27 bits, which select the
/// entries of the three levels.
pub open spec fn vpn_key(vpn: usize) -> usize {
    vpn % VPN_LIMIT
}

/// Index into the root mapper for key `k`.
pub open spec fn index0(k: int) -> int {
    (k / 0x4_0000) % 512
}

/// Index into the second-level mapper for key `k`.
pub open spec fn index1(k: int) -> int {
    (k / 512) % 512
}

/// Index into the last-level mapper for key `k`.
pub open spec fn index2(k: int) -> int {
    k % 512
}

/// Help function to get the physical page number of a physical address.
pub fn get_ppn_with(pa: usize) -> (r: usize)
    ensures
        r == spec_ppn_of(pa),
        r as int == (pa as int / 4096) % 0x1000_0000_0000,
{
    proof {
        lemma_address_fields(pa as u64);
    }
    get_bits(pa as u64, 12, 56) as usize
}

/// The virtual page number of `va` as arithmetic.
pub proof fn lemma_vpn_of(va: usize)
    ensures
        spec_vpn_of(va) as int == (va as int / 4096) % 0x800_0000,
{
    lemma_address_fields(va as u64);
}

/// The offset of `a` inside its page as arithmetic.
pub proof fn lemma_offset_of(a: usize)
    ensures
        spec_offset_of(a) as int == a as int % 4096,
{
    lemma_address_fields(a as u64);
}

/// Help function to get the virtual page number of a virtual address.
pub fn get_vpn_with(va: usize) -> (r: usize)
    ensures
        r == spec_vpn_of(va),
        r as int == (va as int / 4096) % 0x800_0000,
{
    proof {
        lemma_address_fields(va as u64);
    }
    get_bits(va as u64, 12, 39) as usize
}

/// Help function to get the offset of a physical address inside its page.
pub fn get_pa_offset(pa: usize) -> (r: usize)
    ensures
        r == spec_offset_of(pa),
        r as int == pa as int % 4096,
{
    proof {
        lemma_address_fields(pa as u64);
    }
    get_bits(pa as u64, 0, 12) as usize
}

/// Help function to get the offset of a virtual address inside its page.
pub fn get_va_offset(va: usize) -> (r: usize)
    ensures
        r == spec_offset_of(va),
        r as int == va as int % 4096,
{
    get_pa_offset(va)
}

/// The base virtual address of page `vpn`; the bits above bit 38 repeat bit 38.
pub fn cal_base_va_with(vpn: usize) -> (r: usize)
    ensures
        r == spec_base_va(vpn),
{
    let mut va: u64 = (vpn as u64) << 12u64;
    let sign = get_bit(va, 38);
    if sign {
        assert(fits_bits(0x1ff_ffffu64, 25)) by (bit_vector);
        set_bits(&mut va, 39, 64, 0x1ff_ffff);
    }
    va as usize
}

} // verus!

verus! {

/// The number of valid entries in `s`.
pub open spec fn count_valid(s: Seq<PageTableEntry>) -> nat
    decreases s.len(),
{
    if s.len() == 0 {
        0
    } else {
        count_valid(s.drop_last()) + if s.last().spec_valid() {
            1nat
        } else {
            0nat
        }
    }
}

proof fn lemma_count_valid_bound(s: Seq<PageTableEntry>)
    ensures
        count_valid(s) <= s.len(),
        count_valid(s) == 0 ==> forall|i: int| 0 <= i < s.len() ==> !#[trigger] s[i].spec_valid(),
        (exists|i: int| 0 <= i < s.len() && !#[trigger] s[i].spec_valid()) ==> count_valid(s) < s.len(),
        (exists|i: int| 0 <= i < s.len() && #[trigger] s[i].spec_valid()) ==> count_valid(s) > 0,
        count_valid(s) > 0 ==> exists|i: int| 0 <= i < s.len() && #[trigger] s[i].spec_valid(),
    decreases s.len(),
{
    if s.len() > 0 {
        let t = s.drop_last();
        lemma_count_valid_bound(t);
        if count_valid(s) > 0 && !s.last().spec_valid() {
            let i = choose|i: int| 0 <= i < t.len() && #[trigger] t[i].spec_valid();
            assert(s[i] == t[i]);
        }
        assert forall|i: int| 0 <= i < s.len() - 1 implies #[trigger] s[i] == t[i] by {}
        if exists|i: int| 0 <= i < s.len() && !#[trigger] s[i].spec_valid() {
            let i = choose|i: int| 0 <= i < s.len() && !#[trigger] s[i].spec_valid();
            if i < s.len() - 1 {
                assert(!t[i].spec_valid());
            }
        }
        if exists|i: int| 0 <= i < s.len() && #[trigger] s[i].spec_valid() {
            let i = choose|i: int| 0 <= i < s.len() && #[trigger] s[i].spec_valid();
            if i < s.len() - 1 {
                assert(t[i].spec_valid());
            }
        }
    }
}

proof fn lemma_count_valid_update(s: Seq<PageTableEntry>, i: int, e: PageTableEntry)
    requires
        0 <= i < s.len(),
    ensures
        count_valid(s.update(i, e)) + (if s[i].spec_valid() { 1int } else { 0int }) == count_valid(s)
            + (if e.spec_valid() { 1int } else { 0int }),
    decreases s.len(),
{
    let t = s.update(i, e);
    if i == s.len() - 1 {
        assert(t.drop_last() =~= s.drop_last());
    } else {
        lemma_count_valid_update(s.drop_last(), i, e);
        assert(t.drop_last() =~= s.drop_last().update(i, e));
    }
}

proof fn lemma_count_valid_empty(n: nat)
    ensures
        count_valid(Seq::new(n, |i: int| PageTableEntry { bits: 0 })) == 0,
    decreases n,
{
    assert(!(0u64 & 1 == 1)) by (bit_vector);
    if n > 0 {
        lemma_count_valid_empty((n - 1) as nat);
        assert(Seq::new(n, |i: int| PageTableEntry { bits: 0 }).drop_last() =~= Seq::new(
            (n - 1) as nat,
            |i: int| PageTableEntry { bits: 0 },
        ));
    }
}

/// One frame of a page table, seen as its array of entries, with the number of its
/// valid entries.
pub struct PageMapper {
    parent: Option<usize>,
    count: usize,
    tracker: FrameTracker,
    entries: Vec<PageTableEntry>,
}

impl PageMapper {
    /// The mapper holds a full array of entries and counts the valid ones.
    pub closed spec fn wf(&self) -> bool {
        &&& self.entries@.len() == PTE_COUNT
        &&& self.count == count_valid(self.entries@)
    }

    /// The frame of the mapper.
    pub closed spec fn spec_ppn(&self) -> usize {
        self.tracker.spec_ppn()
    }

    /// A mapper of all-invalid entries in the frame of `tracker`, below the mapper in
    /// frame `parent` (none for a root).
    fn new(parent: Option<usize>, tracker: FrameTracker) -> (r: Self)
        ensures
            r.wf(),
            r.parent == parent,
            r.count == 0,
            r.spec_ppn() == tracker.spec_ppn(),
            forall|i: int| 0 <= i < PTE_COUNT ==> !#[trigger] r.entries@[i].spec_valid(),
    {
        let mut entries: Vec<PageTableEntry> = Vec::new();
        let mut i: usize = 0;
        while i < PTE_COUNT
            invariant
                i <= PTE_COUNT,
                entries@ == Seq::new(i as nat, |j: int| PageTableEntry { bits: 0 }),
            decreases PTE_COUNT - i,
        {
            entries.push(PageTableEntry::empty());
            i = i + 1;
            assert(entries@ =~= Seq::new(i as nat, |j: int| PageTableEntry { bits: 0 }));
        }
        proof {
            lemma_count_valid_empty(PTE_COUNT as nat);
            assert(!(0u64 & 1 == 1)) by (bit_vector);
        }
        Self { parent, count: 0, tracker, entries }
    }

    /// The entries of the mapper.
    fn get_pte_array(&self) -> (r: &Vec<PageTableEntry>)
        ensures
            r@ == self.entries@,
    {
        &self.entries
    }

    /// The frame of the mapper.
    fn ppn(&self) -> (r: usize)
        ensures
            r == self.spec_ppn(),
    {
        self.tracker.ppn()
    }

    /// Whether no entry is counted valid.
    fn is_empty(&self) -> (r: bool)
        ensures
            r == (self.count == 0),
    {
        self.count == 0
    }

    /// Whether all entries are counted valid.
    fn is_full(&self) -> (r: bool)
        ensures
            r == (self.count == PTE_COUNT),
    {
        self.count == PTE_COUNT
    }

    /// Counts one more valid entry; `AllocFullPageMapper` when all are counted.
    fn incr(&mut self) -> (r: Result<usize, KernelError>)
        requires
            old(self).count <= PTE_COUNT,
        ensures
            old(self).count == PTE_COUNT ==> r == Err::<usize, KernelError>(
                KernelError::AllocFullPageMapper(old(self).spec_ppn()),
            ) && *final(self) == *old(self),
            old(self).count != PTE_COUNT ==> r == Ok::<usize, KernelError>((old(self).count + 1) as usize)
                && final(self).count == old(self).count + 1,
            final(self).entries == old(self).entries,
            final(self).parent == old(self).parent,
            final(self).tracker == old(self).tracker,
    {
        if self.is_full() {
            Err(KernelError::AllocFullPageMapper(self.ppn()))
        } else {
            self.count = self.count + 1;
            Ok(self.count)
        }
    }

    /// Stops counting one valid entry; `DeallocEmptyPageMapper` when none is counted.
    fn decr(&mut self) -> (r: Result<usize, KernelError>)
        ensures
            old(self).count == 0 ==> r == Err::<usize, KernelError>(
                KernelError::DeallocEmptyPageMapper(old(self).spec_ppn()),
            ) && *final(self) == *old(self),
            old(self).count != 0 ==> r == Ok::<usize, KernelError>((old(self).count - 1) as usize)
                && final(self).count == old(self).count - 1,
            final(self).entries == old(self).entries,
            final(self).parent == old(self).parent,
            final(self).tracker == old(self).tracker,
    {
        if self.is_empty() {
            Err(KernelError::DeallocEmptyPageMapper(self.ppn()))
        } else {
            self.count = self.count - 1;
            Ok(self.count)
        }
    }

    /// Writes entry `index` of the mapper.
    fn set_pte(&mut self, index: usize, entry: PageTableEntry)
        requires
            index < old(self).entries@.len(),
        ensures
            final(self).entries@ == old(self).entries@.update(index as int, entry),
            final(self).count == old(self).count,
            final(self).parent == old(self).parent,
            final(self).tracker == old(self).tracker,
    {
        self.entries.set(index, entry);
    }
}

} // verus!

verus! {

/// The token that makes the MMU use a table: mode in bits 60..64, address space id
/// in bits 44..60, root frame in bits 0..44.
pub open spec fn spec_mmu_token(asid: usize, ppn: usize) -> u64 {
    spec_set_bits(spec_set_bits(spec_set_bits(0, 60, 64, 8), 44, 60, asid as u64), 0, 44, ppn as u64)
}

/// A three-level Sv39 page table: a root mapper, the other mappers by their frame,
/// and the data frames of the pages it allocated, by virtual page number.
pub struct PageTable {
    asid: usize,
    root: PageMapper,
    mappers: BTreeMap<usize, PageMapper>,
    trackers: BTreeMap<usize, FrameTracker>,
}

impl PageTable {
    spec fn rent(&self, a: int) -> PageTableEntry {
        self.root.entries@[a]
    }

    spec fn ment(&self, p: usize, i: int) -> PageTableEntry {
        self.mappers@[p].entries@[i]
    }

    /// Root entry `a` is valid.
    spec fn l1_valid(&self, a: int) -> bool {
        0 <= a < 512 && self.rent(a).spec_valid()
    }

    /// The frame of the second-level mapper under root entry `a`.
    spec fn l1(&self, a: int) -> usize {
        self.rent(a).spec_ppn()
    }

    /// Entry `b` of the second-level mapper under root entry `a` is valid.
    spec fn l2_valid(&self, a: int, b: int) -> bool {
        self.l1_valid(a) && 0 <= b < 512 && self.ment(self.l1(a), b).spec_valid()
    }

    /// The frame of the last-level mapper under entries `a`, `b`.
    spec fn l2(&self, a: int, b: int) -> usize {
        self.ment(self.l1(a), b).spec_ppn()
    }

    /// The leaf entry `a`, `b`, `c` is valid.
    spec fn leaf_valid(&self, a: int, b: int, c: int) -> bool {
        self.l2_valid(a, b) && 0 <= c < 512 && self.ment(self.l2(a, b), c).spec_valid()
    }

    /// The leaf entry `a`, `b`, `c`.
    spec fn leaf(&self, a: int, b: int, c: int) -> PageTableEntry {
        self.ment(self.l2(a, b), c)
    }

    /// The mapped pages: the leaf entry of each key (a virtual page number below
    /// `VPN_LIMIT`) whose three entries are valid.
    pub closed spec fn view(&self) -> Map<usize, PageTableEntry> {
        Map::new(
            |k: usize| k < VPN_LIMIT && self.leaf_valid(index0(k as int), index1(k as int), index2(k as int)),
            |k: usize| self.leaf(index0(k as int), index1(k as int), index2(k as int)),
        )
    }

    /// The address space id.
    pub closed spec fn spec_asid(&self) -> usize {
        self.asid
    }

    /// The frame of the root mapper.
    pub closed spec fn spec_root_ppn(&self) -> usize {
        self.root.spec_ppn()
    }

    /// The data frames allocated for pages, by virtual page number.
    pub closed spec fn trackers(&self) -> Map<usize, FrameTracker> {
        self.trackers@
    }

    /// The frames of the mappers other than the root.
    pub closed spec fn mapper_frames(&self) -> Set<usize> {
        self.mappers@.dom()
    }

    /// The frame of the second-level mapper under root entry `a`.
    pub closed spec fn l1_mapper(&self, a: int) -> usize {
        self.l1(a)
    }

    /// The frame of the last-level mapper under root entry `a` and entry `b`.
    pub closed spec fn l2_mapper(&self, a: int, b: int) -> usize {
        self.l2(a, b)
    }

    /// The frames the table owns: its root, its other mappers and its pages' data.
    pub proof fn lemma_owns_parts(&self, f: usize)
        ensures
            self.owns(f) == (f == self.spec_root_ppn() || self.mapper_frames().contains(f) || exists|v: usize|
                #[trigger] self.trackers().contains_key(v) && self.trackers()[v].spec_ppn() == f),
    {
        if exists|v: usize| #[trigger] self.trackers@.contains_key(v) && self.trackers@[v].spec_ppn() == f {
            let v = choose|v: usize| #[trigger] self.trackers@.contains_key(v) && self.trackers@[v].spec_ppn() == f;
            assert(self.trackers().contains_key(v) && self.trackers()[v].spec_ppn() == f);
        }
        if exists|v: usize| #[trigger] self.trackers().contains_key(v) && self.trackers()[v].spec_ppn() == f {
            let v = choose|v: usize| #[trigger] self.trackers().contains_key(v) && self.trackers()[v].spec_ppn() == f;
            assert(self.trackers@.contains_key(v) && self.trackers@[v].spec_ppn() == f);
        }
    }

    /// The table owns frame `f`: as root, as another mapper or as a page's data.
    pub closed spec fn owns(&self, f: usize) -> bool {
        ||| f == self.root.spec_ppn()
        ||| self.mappers@.contains_key(f)
        ||| exists|v: usize| #[trigger] self.trackers@.contains_key(v) && self.trackers@[v].spec_ppn() == f
    }

    spec fn wf_mappers(&self) -> bool {
        &&& self.root.wf()
        &&& !self.mappers@.contains_key(self.root.spec_ppn())
        &&& forall|p: usize| #[trigger] self.mappers@.contains_key(p) ==> self.mappers@[p].wf()
            && self.mappers@[p].spec_ppn() == p
    }

    spec fn wf_tree(&self) -> bool {
        &&& forall|a: int| #[trigger] self.l1_valid(a) ==> self.mappers@.contains_key(self.l1(a))
            && self.mappers@[self.l1(a)].parent == Some(self.root.spec_ppn())
        &&& forall|a: int, b: int| #[trigger] self.l2_valid(a, b) ==> self.mappers@.contains_key(
            self.l2(a, b),
        ) && self.mappers@[self.l2(a, b)].parent == Some(self.l1(a))
        &&& forall|a: int, a2: int|
            #[trigger] self.l1_valid(a) && #[trigger] self.l1_valid(a2) && a != a2 ==> self.l1(a)
                != self.l1(a2)
        &&& forall|a: int, b: int, a2: int, b2: int|
            #[trigger] self.l2_valid(a, b) && #[trigger] self.l2_valid(a2, b2) && (a != a2 || b != b2)
                ==> self.l2(a, b) != self.l2(a2, b2)
        &&& forall|a: int, a2: int, b2: int|
            #[trigger] self.l1_valid(a) && #[trigger] self.l2_valid(a2, b2) ==> self.l1(a) != self.l2(
                a2,
                b2,
            )
    }

    spec fn wf_trackers(&self) -> bool {
        &&& forall|v: usize| #[trigger] self.trackers@.contains_key(v) ==> {
            &&& self.trackers@[v].wf()
            &&& self.trackers@[v].spec_ppn() != self.root.spec_ppn()
            &&& !self.mappers@.contains_key(self.trackers@[v].spec_ppn())
        }
        &&& forall|v: usize, w: usize|
            #[trigger] self.trackers@.contains_key(v) && #[trigger] self.trackers@.contains_key(w) && v
                != w ==> self.trackers@[v].spec_ppn() != self.trackers@[w].spec_ppn()
    }

    /// The table is well formed: every valid entry above the leaves leads to a mapper
    /// of its own, each mapper counts its valid entries, and no frame is used twice.
    pub closed spec fn wf(&self) -> bool {
        &&& self.wf_mappers()
        &&& self.wf_tree()
        &&& self.wf_trackers()
    }

    /// Every frame of the table is handed out by `allocator`, whose frames fit into a
    /// page table entry.
    pub open spec fn frames_in(&self, allocator: &BTreeSetFrameAllocator) -> bool {
        &&& allocator.wf()
        &&& allocator.spec_end_ppn() <= PPN_LIMIT
        &&& forall|f: usize| #[trigger] self.owns(f) ==> allocator.handed_out(f)
    }

    /// Only frames that the table gained or gave up changed their state in the allocator.
    pub open spec fn frames_kept(
        old_table: &PageTable,
        new_table: &PageTable,
        old_alloc: &BTreeSetFrameAllocator,
        new_alloc: &BTreeSetFrameAllocator,
    ) -> bool {
        forall|f: usize|
            !old_table.owns(f) && !new_table.owns(f) ==> #[trigger] new_alloc.handed_out(f)
                == old_alloc.handed_out(f)
    }

    /// The indexes into the three levels of mappers for `vpn`: bits 18..27, 9..18 and
    /// 0..9.
    pub fn page_indexes(vpn: usize) -> (r: [usize; 3])
        ensures
            r@[0] == index0(vpn_key(vpn) as int),
            r@[1] == index1(vpn_key(vpn) as int),
            r@[2] == index2(vpn_key(vpn) as int),
            r@.len() == 3,
    {
        proof {
            lemma_address_fields(vpn as u64);
            lemma_key_indexes(vpn);
        }
        let i0 = get_bits(vpn as u64, 18, 27) as usize;
        let i1 = get_bits(vpn as u64, 9, 18) as usize;
        let i2 = get_bits(vpn as u64, 0, 9) as usize;
        [i0, i1, i2]
    }

    /// A table with an empty root mapper in a new frame of `allocator`;
    /// `FrameExhausted` when there is none.
    pub fn new(asid: usize, allocator: &mut BTreeSetFrameAllocator) -> (r: Result<Self, KernelError>)
        requires
            old(allocator).wf(),
            old(allocator).spec_end_ppn() <= PPN_LIMIT,
        ensures
            final(allocator).wf(),
            final(allocator).spec_end_ppn() == old(allocator).spec_end_ppn(),
            r is Err <==> old(allocator).available() == 0,
            r is Ok ==> final(allocator).available() == old(allocator).available() - 1,
            r is Err ==> r == Err::<Self, KernelError>(KernelError::FrameExhausted),
            r is Ok ==> {
                let t = r->Ok_0;
                &&& t.wf()
                &&& t.frames_in(&*final(allocator))
                &&& t@ == Map::<usize, PageTableEntry>::empty()
                &&& t.trackers() == Map::<usize, FrameTracker>::empty()
                &&& t.spec_asid() == asid
                &&& t.l1_set() == Set::<int>::empty()
                &&& t.l2_set() == Set::<(int, int)>::empty()
                &&& t.mapper_frames() == Set::<usize>::empty()
                &&& forall|f: usize| #[trigger] t.owns(f) <==> f == t.spec_root_ppn()
                &&& !old(allocator).handed_out(t.spec_root_ppn())
                &&& forall|f: usize| f != t.spec_root_ppn() ==> #[trigger] final(allocator).handed_out(f)
                    == old(allocator).handed_out(f)
            },
            r is Err ==> forall|f: usize| #[trigger] final(allocator).handed_out(f) == old(
                allocator,
            ).handed_out(f),
    {
        let tracker = alloc_frame(allocator)?;
        let t = Self {
            asid,
            root: PageMapper::new(None, tracker),
            mappers: BTreeMap::new(),
            trackers: BTreeMap::new(),
        };
        assert(t@ =~= Map::<usize, PageTableEntry>::empty());
        assert(t.l1_set() =~= Set::<int>::empty());
        assert(t.l2_set() =~= Set::<(int, int)>::empty());
        assert(t.mapper_frames() =~= Set::<usize>::empty());
        Ok(t)
    }

    /// The address space id.
    pub fn asid(&self) -> (r: usize)
        ensures
            r == self.spec_asid(),
    {
        self.asid
    }

    /// The frame of the root mapper.
    pub fn ppn(&self) -> (r: usize)
        ensures
            r == self.spec_root_ppn(),
    {
        self.root.ppn()
    }

    /// The token that makes the MMU use this table.
    pub fn mmu_token(&self) -> (r: usize)
        requires
            self.spec_asid() < ASID_LIMIT,
            self.spec_root_ppn() < PPN_LIMIT,
        ensures
            r == spec_mmu_token(self.spec_asid(), self.spec_root_ppn()) as usize,
    {
        let asid = self.asid;
        let ppn = self.ppn();
        let a = asid as u64;
        let p = ppn as u64;
        proof {
            assert(fits_bits(8u64, 4)) by (bit_vector);
            assert(fits_bits(a, 16)) by (bit_vector)
                requires
                    a < 0x1_0000,
            ;
            assert(fits_bits(p, 44)) by (bit_vector)
                requires
                    p < 0x1000_0000_0000,
            ;
        }
        let mut token: u64 = 0;
        set_bits(&mut token, 60, 64, sv39_mode());
        set_bits(&mut token, 44, 60, a);
        set_bits(&mut token, 0, 44, p);
        token as usize
    }

    /// The frame that page `vpn` is mapped to, if it is mapped.
    /// Whether root entry `a` leads to a mapper.
    pub fn has_l1(&self, a: usize) -> (r: bool)
        requires
            self.wf(),
            a < 512,
        ensures
            r == self.l1_set().contains(a as int),
    {
        self.root.get_pte_array()[a].is_valid()
    }

    /// Whether root entry `a` and second-level entry `b` lead to a mapper.
    pub fn has_l2(&self, a: usize, b: usize) -> (r: bool)
        requires
            self.wf(),
            a < 512,
            b < 512,
        ensures
            r == self.l2_set().contains((a as int, b as int)),
    {
        let entry0 = self.root.get_pte_array()[a];
        if !entry0.is_valid() {
            return false;
        }
        proof {
            assert(self.l1_valid(a as int));
        }
        match self.mappers.get(&entry0.ppn()) {
            Some(m) => m.get_pte_array()[b].is_valid(),
            None => false,
        }
    }

    pub fn translate_ppn_with(&self, vpn: usize) -> (r: Option<usize>)
        requires
            self.wf(),
        ensures
            r == if self@.contains_key(vpn_key(vpn)) {
                Some(self@[vpn_key(vpn)].spec_ppn())
            } else {
                None::<usize>
            },
    {
        let indexes = Self::page_indexes(vpn);
        proof {
            lemma_key_indexes(vpn);
        }
        let entry0 = self.root.get_pte_array()[indexes[0]];
        if !entry0.is_valid() {
            return None;
        }
        let mapper1 = match self.mappers.get(&entry0.ppn()) {
            Some(m) => m,
            None => return None,
        };
        let entry1 = mapper1.get_pte_array()[indexes[1]];
        if !entry1.is_valid() {
            return None;
        }
        let mapper2 = match self.mappers.get(&entry1.ppn()) {
            Some(m) => m,
            None => return None,
        };
        let entry2 = mapper2.get_pte_array()[indexes[2]];
        if entry2.is_valid() {
            Some(entry2.ppn())
        } else {
            None
        }
    }

    /// The data frame allocated for page `vpn`; `VPNNotMapped` when there is none.
    pub fn get_tracker_with(&self, vpn: usize) -> (r: Result<&FrameTracker, KernelError>)
        ensures
            self.trackers().contains_key(vpn) ==> r == Ok::<&FrameTracker, KernelError>(
                &self.trackers()[vpn],
            ),
            !self.trackers().contains_key(vpn) ==> r == Err::<&FrameTracker, KernelError>(
                KernelError::VPNNotMapped(vpn),
            ),
    {
        match self.trackers.get(&vpn) {
            Some(t) => Ok(t),
            None => Err(KernelError::VPNNotMapped(vpn)),
        }
    }

    /// The bytes of the data frame allocated for page `vpn`; `VPNNotMapped` when there
    /// is none.
    pub fn get_byte_array(&self, vpn: usize) -> (r: Result<&Vec<u8>, KernelError>)
        ensures
            self.trackers().contains_key(vpn) ==> r is Ok && r->Ok_0@ == self.trackers()[vpn]@,
            !self.trackers().contains_key(vpn) ==> r == Err::<&Vec<u8>, KernelError>(
                KernelError::VPNNotMapped(vpn),
            ),
    {
        let tracker = self.get_tracker_with(vpn)?;
        Ok(tracker.get_byte_array())
    }
}

proof fn lemma_key_indexes(vpn: usize)
    ensures
        index0(vpn_key(vpn) as int) == ((vpn as u64) / 0x4_0000) % 512,
        index1(vpn_key(vpn) as int) == ((vpn as u64) / 512) % 512,
        index2(vpn_key(vpn) as int) == (vpn as u64) % 512,
        vpn_key(vpn) < VPN_LIMIT,
{
    let x = vpn as u64;
    assert(((x % 0x800_0000) / 0x4_0000) % 512 == (x / 0x4_0000) % 512) by (bit_vector);
    assert(((x % 0x800_0000) / 512) % 512 == (x / 512) % 512) by (bit_vector);
    assert((x % 0x800_0000) % 512 == x % 512) by (bit_vector);
}

} // verus!

verus! {

/// The key whose three indexes are `a`, `b` and `c`.
pub open spec fn key_of(a: int, b: int, c: int) -> int {
    a * 0x4_0000 + b * 512 + c
}

proof fn lemma_key_split(k: usize)
    requires
        k < VPN_LIMIT,
    ensures
        k == key_of(index0(k as int), index1(k as int), index2(k as int)),
        0 <= index0(k as int) < 512,
        0 <= index1(k as int) < 512,
        0 <= index2(k as int) < 512,
{
    let x = k as u64;
    assert(x == ((x / 0x4_0000) % 512) * 0x4_0000 + ((x / 512) % 512) * 512 + x % 512) by (bit_vector)
        requires
            x < 0x800_0000,
    ;
}

/// The frames of mappers needed to map key `k` when the root entries `l1` and the
/// pairs of entries `l2` already lead to mappers.
pub open spec fn frames_for(l1: Set<int>, l2: Set<(int, int)>, k: usize) -> int {
    if !l1.contains(index0(k as int)) {
        2
    } else if !l2.contains((index0(k as int), index1(k as int))) {
        1
    } else {
        0
    }
}

/// Keys with equal indexes are equal.
/// The key of the entries `a`, `b`, `c` has those entries as its indexes.
proof fn lemma_key_join(a: int, b: int, c: int)
    requires
        0 <= a < 512,
        0 <= b < 512,
        0 <= c < 512,
    ensures
        0 <= key_of(a, b, c) < VPN_LIMIT,
        index0(key_of(a, b, c)) == a,
        index1(key_of(a, b, c)) == b,
        index2(key_of(a, b, c)) == c,
{
    let x = a as u64;
    let y = b as u64;
    let z = c as u64;
    assert(x * 0x4_0000 + y * 512 + z < 0x800_0000 && ((x * 0x4_0000 + y * 512 + z) / 0x4_0000) % 512 == x && ((x
        * 0x4_0000 + y * 512 + z) / 512) % 512 == y && (x * 0x4_0000 + y * 512 + z) % 512 == z) by (bit_vector)
        requires
            x < 512,
            y < 512,
            z < 512,
    ;
}

/// Some page of `m` goes through root entry `a` and second-level entry `b`.
pub open spec fn pair_used(m: Map<usize, PageTableEntry>, a: int, b: int) -> bool {
    exists|k: usize| #[trigger] m.contains_key(k) && index0(k as int) == a && index1(k as int) == b
}

proof fn lemma_key_unique(k1: usize, k2: usize)
    requires
        k1 < VPN_LIMIT,
        k2 < VPN_LIMIT,
        index0(k1 as int) == index0(k2 as int),
        index1(k1 as int) == index1(k2 as int),
        index2(k1 as int) == index2(k2 as int),
    ensures
        k1 == k2,
{
    lemma_key_split(k1);
    lemma_key_split(k2);
}

impl PageTable {
    /// Mapping one more key needs at most two new mappers.
    pub proof fn lemma_needed_bound(t: PageTable, k: usize)
        ensures
            0 <= t.needed_frames(k) <= 2,
    {
    }

    /// The root mapper's frame is one the table owns.
    pub proof fn lemma_root_owned(&self)
        ensures
            self.owns(self.spec_root_ppn()),
    {
    }

    /// The data frames of a well-formed table hold one page of bytes each.
    pub proof fn lemma_tracker_wf(&self, v: usize)
        requires
            self.wf(),
            self.trackers().contains_key(v),
        ensures
            self.trackers()[v].wf(),
    {
    }

    /// The frames of mappers that `map_without_alloc` has to create for key `k`.
    pub open spec fn needed_frames(&self, k: usize) -> int {
        frames_for(self.l1_set(), self.l2_set(), k)
    }

    /// The root entries that lead to a second-level mapper.
    pub closed spec fn l1_set(&self) -> Set<int> {
        Set::new(|a: int| self.l1_valid(a))
    }

    /// The pairs of root and second-level entries that lead to a last-level mapper.
    pub closed spec fn l2_set(&self) -> Set<(int, int)> {
        Set::new(|p: (int, int)| self.l2_valid(p.0, p.1))
    }

    /// The root entry `a` gets a new, empty mapper `m`.
    proof fn lemma_root_add(t1: PageTable, t2: PageTable, a: int, m: PageMapper, e: PageTableEntry)
        requires
            t1.wf(),
            0 <= a < 512,
            !t1.l1_valid(a),
            m.wf(),
            m.parent == Some(t1.root.spec_ppn()),
            forall|i: int| 0 <= i < 512 ==> !#[trigger] m.entries@[i].spec_valid(),
            m.spec_ppn() != t1.root.spec_ppn(),
            !t1.mappers@.contains_key(m.spec_ppn()),
            forall|v: usize| #[trigger] t1.trackers@.contains_key(v) ==> t1.trackers@[v].spec_ppn() != m.spec_ppn(),
            e.spec_valid(),
            e.spec_ppn() == m.spec_ppn(),
            t2.root.entries@ == t1.root.entries@.update(a, e),
            t2.root.count == t1.root.count + 1,
            t2.root.tracker == t1.root.tracker,
            t2.mappers@ == t1.mappers@.insert(m.spec_ppn(), m),
            t2.trackers@ == t1.trackers@,
        ensures
            t2.wf(),
            t2@ == t1@,
            forall|f: usize| #[trigger] t2.owns(f) == (t1.owns(f) || f == m.spec_ppn()),
            t2.l1_valid(a),
            t2.l1(a) == m.spec_ppn(),
            forall|b: int| !#[trigger] t2.l2_valid(a, b),
            forall|a2: int| #[trigger] t2.l1_valid(a2) == (t1.l1_valid(a2) || a2 == a),
            forall|a2: int, b2: int| #[trigger] t2.l2_valid(a2, b2) == t1.l2_valid(a2, b2),
    {
        let q = m.spec_ppn();
        lemma_count_valid_update(t1.root.entries@, a, e);
        assert forall|a2: int| 0 <= a2 < 512 && a2 != a implies #[trigger] t2.l1_valid(a2) == t1.l1_valid(a2)
            && t2.l1(a2) == t1.l1(a2) by {}
        assert forall|a2: int, b: int| #[trigger] t2.l2_valid(a2, b) == (a2 != a && t1.l2_valid(a2, b)) && (
        t2.l2_valid(a2, b) ==> t2.l2(a2, b) == t1.l2(a2, b)) by {
            if a2 != a && t1.l1_valid(a2) {
                assert(t1.l1(a2) != q);
            }
        }
        assert forall|a2: int, b: int, c: int| #[trigger] t2.leaf_valid(a2, b, c) == t1.leaf_valid(a2, b, c)
            && (t2.leaf_valid(a2, b, c) ==> t2.leaf(a2, b, c) == t1.leaf(a2, b, c)) by {
            if t2.l2_valid(a2, b) {
                assert(t1.l2(a2, b) != q);
            }
        }
        assert(t2.wf_tree());
        assert(t2@ =~= t1@);
        assert forall|f: usize| #[trigger] t2.owns(f) == (t1.owns(f) || f == q) by {
            if exists|v: usize| #[trigger] t2.trackers@.contains_key(v) && t2.trackers@[v].spec_ppn() == f {
                let v = choose|v: usize| #[trigger] t2.trackers@.contains_key(v) && t2.trackers@[v].spec_ppn() == f;
                assert(t1.trackers@.contains_key(v));
            }
            if exists|v: usize| #[trigger] t1.trackers@.contains_key(v) && t1.trackers@[v].spec_ppn() == f {
                let v = choose|v: usize| #[trigger] t1.trackers@.contains_key(v) && t1.trackers@[v].spec_ppn() == f;
                assert(t2.trackers@.contains_key(v));
            }
        }
    }

    /// Entry `b` of the second-level mapper under root entry `a` gets a new, empty
    /// mapper `m`.
    proof fn lemma_mapper_add(
        t1: PageTable,
        t2: PageTable,
        a: int,
        b: int,
        pm: PageMapper,
        m: PageMapper,
        e: PageTableEntry,
    )
        requires
            t1.wf(),
            0 <= b < 512,
            t1.l1_valid(a),
            !t1.l2_valid(a, b),
            m.wf(),
            m.parent == Some(t1.l1(a)),
            forall|i: int| 0 <= i < 512 ==> !#[trigger] m.entries@[i].spec_valid(),
            m.spec_ppn() != t1.root.spec_ppn(),
            !t1.mappers@.contains_key(m.spec_ppn()),
            forall|v: usize| #[trigger] t1.trackers@.contains_key(v) ==> t1.trackers@[v].spec_ppn() != m.spec_ppn(),
            e.spec_valid(),
            e.spec_ppn() == m.spec_ppn(),
            pm.entries@ == t1.mappers@[t1.l1(a)].entries@.update(b, e),
            pm.count == t1.mappers@[t1.l1(a)].count + 1,
            pm.tracker == t1.mappers@[t1.l1(a)].tracker,
            pm.parent == t1.mappers@[t1.l1(a)].parent,
            t2.root == t1.root,
            t2.mappers@ == t1.mappers@.insert(t1.l1(a), pm).insert(m.spec_ppn(), m),
            t2.trackers@ == t1.trackers@,
        ensures
            t2.wf(),
            t2@ == t1@,
            forall|f: usize| #[trigger] t2.owns(f) == (t1.owns(f) || f == m.spec_ppn()),
            t2.l1_valid(a),
            t2.l1(a) == t1.l1(a),
            t2.l2_valid(a, b),
            t2.l2(a, b) == m.spec_ppn(),
            forall|c: int| !#[trigger] t2.leaf_valid(a, b, c),
            forall|a2: int| #[trigger] t2.l1_valid(a2) == t1.l1_valid(a2),
            forall|a2: int, b2: int| #[trigger] t2.l2_valid(a2, b2) == (t1.l2_valid(a2, b2) || (a2 == a
                && b2 == b)),
    {
        let q = m.spec_ppn();
        let p = t1.l1(a);
        lemma_count_valid_update(t1.mappers@[p].entries@, b, e);
        assert(p != q);
        assert forall|a2: int| #[trigger] t2.l1_valid(a2) == t1.l1_valid(a2) && t2.l1(a2) == t1.l1(a2) by {}
        assert forall|a2: int, b2: int| #[trigger] t2.l2_valid(a2, b2) == (t1.l2_valid(a2, b2) || (a2 == a
            && b2 == b)) && (t1.l2_valid(a2, b2) ==> t2.l2(a2, b2) == t1.l2(a2, b2)) by {
            if t1.l1_valid(a2) && a2 != a {
                assert(t1.l1(a2) != p);
                assert(t1.l1(a2) != q);
            }
        }
        assert forall|a2: int, b2: int, c: int| #[trigger] t2.leaf_valid(a2, b2, c) == t1.leaf_valid(
            a2,
            b2,
            c,
        ) && (t2.leaf_valid(a2, b2, c) ==> t2.leaf(a2, b2, c) == t1.leaf(a2, b2, c)) by {
            if t1.l2_valid(a2, b2) {
                assert(t1.l2(a2, b2) != p);
                assert(t1.l2(a2, b2) != q);
            }
        }
        assert forall|p2: usize| #[trigger] t2.mappers@.contains_key(p2) implies t2.mappers@[p2].wf()
            && t2.mappers@[p2].spec_ppn() == p2 by {}
        assert(t2.wf_mappers());
        assert(t2.wf_tree());
        assert(t2@ =~= t1@);
        assert forall|f: usize| #[trigger] t2.owns(f) == (t1.owns(f) || f == q) by {
            if exists|v: usize| #[trigger] t2.trackers@.contains_key(v) && t2.trackers@[v].spec_ppn() == f {
                let v = choose|v: usize| #[trigger] t2.trackers@.contains_key(v) && t2.trackers@[v].spec_ppn() == f;
                assert(t1.trackers@.contains_key(v));
            }
            if exists|v: usize| #[trigger] t1.trackers@.contains_key(v) && t1.trackers@[v].spec_ppn() == f {
                let v = choose|v: usize| #[trigger] t1.trackers@.contains_key(v) && t1.trackers@[v].spec_ppn() == f;
                assert(t2.trackers@.contains_key(v));
            }
        }
    }

    /// The invalid leaf entry of key `k` becomes the valid entry `e`.
    proof fn lemma_leaf_set(t1: PageTable, t2: PageTable, k: usize, pm: PageMapper, e: PageTableEntry)
        requires
            t1.wf(),
            k < VPN_LIMIT,
            t1.l2_valid(index0(k as int), index1(k as int)),
            !t1.leaf_valid(index0(k as int), index1(k as int), index2(k as int)),
            e.spec_valid(),
            pm.entries@ == t1.mappers@[t1.l2(index0(k as int), index1(k as int))].entries@.update(
                index2(k as int),
                e,
            ),
            pm.count == t1.mappers@[t1.l2(index0(k as int), index1(k as int))].count + 1,
            pm.tracker == t1.mappers@[t1.l2(index0(k as int), index1(k as int))].tracker,
            pm.parent == t1.mappers@[t1.l2(index0(k as int), index1(k as int))].parent,
            t2.root == t1.root,
            t2.mappers@ == t1.mappers@.insert(t1.l2(index0(k as int), index1(k as int)), pm),
            t2.trackers@ == t1.trackers@,
        ensures
            t2.wf(),
            t2@ == t1@.insert(k, e),
            forall|f: usize| #[trigger] t2.owns(f) == t1.owns(f),
            forall|a2: int| #[trigger] t2.l1_valid(a2) == t1.l1_valid(a2),
            forall|a2: int, b2: int| #[trigger] t2.l2_valid(a2, b2) == t1.l2_valid(a2, b2),
    {
        let a = index0(k as int);
        let b = index1(k as int);
        let c = index2(k as int);
        lemma_key_split(k);
        let p = t1.l2(a, b);
        lemma_count_valid_update(t1.mappers@[p].entries@, c, e);
        assert forall|a2: int| #[trigger] t2.l1_valid(a2) == t1.l1_valid(a2) && t2.l1(a2) == t1.l1(a2) by {}
        assert forall|a2: int, b2: int| #[trigger] t2.l2_valid(a2, b2) == t1.l2_valid(a2, b2) && (
        t1.l2_valid(a2, b2) ==> t2.l2(a2, b2) == t1.l2(a2, b2)) by {
            if t1.l1_valid(a2) {
                assert(t1.l1(a2) != p);
            }
        }
        assert forall|a2: int, b2: int, c2: int| #[trigger] t2.leaf_valid(a2, b2, c2) == (t1.leaf_valid(
            a2,
            b2,
            c2,
        ) || (a2 == a && b2 == b && c2 == c)) && (t2.leaf_valid(a2, b2, c2) ==> t2.leaf(a2, b2, c2) == if a2
            == a && b2 == b && c2 == c {
            e
        } else {
            t1.leaf(a2, b2, c2)
        }) by {
            if t1.l2_valid(a2, b2) && (a2 != a || b2 != b) {
                assert(t1.l2(a2, b2) != p);
            }
        }
        assert forall|p2: usize| #[trigger] t2.mappers@.contains_key(p2) implies t2.mappers@[p2].wf()
            && t2.mappers@[p2].spec_ppn() == p2 by {}
        assert(t2.wf_mappers());
        assert(t2.wf_tree());
        assert forall|k2: usize| #[trigger] t2@.contains_key(k2) == t1@.insert(k, e).contains_key(k2) && (
        t2@.contains_key(k2) ==> t2@[k2] == t1@.insert(k, e)[k2]) by {
            if k2 < VPN_LIMIT && index0(k2 as int) == a && index1(k2 as int) == b && index2(k2 as int) == c {
                lemma_key_unique(k, k2);
            }
        }
        assert(t2@ =~= t1@.insert(k, e));
        assert forall|f: usize| #[trigger] t2.owns(f) == t1.owns(f) by {
            if exists|v: usize| #[trigger] t2.trackers@.contains_key(v) && t2.trackers@[v].spec_ppn() == f {
                let v = choose|v: usize| #[trigger] t2.trackers@.contains_key(v) && t2.trackers@[v].spec_ppn() == f;
                assert(t1.trackers@.contains_key(v));
            }
            if exists|v: usize| #[trigger] t1.trackers@.contains_key(v) && t1.trackers@[v].spec_ppn() == f {
                let v = choose|v: usize| #[trigger] t1.trackers@.contains_key(v) && t1.trackers@[v].spec_ppn() == f;
                assert(t2.trackers@.contains_key(v));
            }
        }
    }
}

} // verus!

verus! {

/// The allocator's frames are where they were.
pub open spec fn alloc_unchanged(a1: &BTreeSetFrameAllocator, a2: &BTreeSetFrameAllocator) -> bool {
    &&& a1.spec_current_ppn() == a2.spec_current_ppn()
    &&& a1.spec_end_ppn() == a2.spec_end_ppn()
    &&& a1.recycled() == a2.recycled()
}

impl PageTable {
    /// The second-level mapper under root entry `a`, created in a new frame when the
    /// entry is invalid; `FrameExhausted` when no frame is left for it.
    fn root_child(&mut self, a: usize, allocator: &mut BTreeSetFrameAllocator) -> (r: Result<
        usize,
        KernelError,
    >)
        requires
            old(self).wf(),
            old(self).frames_in(&*old(allocator)),
            a < 512,
        ensures
            final(self).wf(),
            final(self).frames_in(&*final(allocator)),
            Self::frames_kept(&*old(self), &*final(self), &*old(allocator), &*final(allocator)),
            final(self)@ == old(self)@,
            final(self).trackers@ == old(self).trackers@,
            final(self).asid == old(self).asid,
            final(self).root.spec_ppn() == old(self).root.spec_ppn(),
            forall|f: usize| #[trigger] old(self).owns(f) ==> final(self).owns(f),
            forall|f: usize| #[trigger] final(self).owns(f) && !old(self).owns(f) ==> !old(allocator).handed_out(f),
            old(self).l1_valid(a as int) ==> {
                &&& r == Ok::<usize, KernelError>(old(self).l1(a as int))
                &&& *final(self) == *old(self)
                &&& alloc_unchanged(&*old(allocator), &*final(allocator))
            },
            !old(self).l1_valid(a as int) && old(allocator).available() == 0 ==> {
                &&& r == Err::<usize, KernelError>(KernelError::FrameExhausted)
                &&& *final(self) == *old(self)
                &&& alloc_unchanged(&*old(allocator), &*final(allocator))
            },
            !old(self).l1_valid(a as int) && old(allocator).available() > 0 ==> {
                &&& r is Ok
                &&& forall|b: int| !#[trigger] final(self).l2_valid(a as int, b)
                &&& final(allocator).available() == old(allocator).available() - 1
            },
            r is Ok ==> forall|a2: int| #[trigger] final(self).l1_valid(a2) == (old(self).l1_valid(a2) || a2
                == a),
            r is Ok ==> forall|a2: int, b2: int| #[trigger] final(self).l2_valid(a2, b2) == old(self).l2_valid(
                a2,
                b2,
            ),
            r is Ok ==> final(self).l1_valid(a as int) && final(self).l1(a as int) == r->Ok_0,
            r is Ok ==> final(self).mapper_frames() == old(self).mapper_frames().insert(r->Ok_0),
    {
        let ghost t1 = *self;
        let entry = self.root.get_pte_array()[a];
        if !entry.is_valid() {
            let tracker = alloc_frame(allocator)?;
            let child_ppn = tracker.ppn();
            let parent_ppn = self.root.ppn();
            proof {
                assert(!t1.owns(child_ppn));
                assert(!t1.mappers@.contains_key(child_ppn));
                assert forall|v: usize| #[trigger] t1.trackers@.contains_key(v) implies t1.trackers@[v].spec_ppn()
                    != child_ppn by {}
            }
            let child_mapper = PageMapper::new(Some(parent_ppn), tracker);
            let new_entry = PageTableEntry::new(child_ppn, PTEFlags { bits: PTEFlags::V });
            proof {
                assert(1u8 & 1u8 == 1u8) by (bit_vector);
                lemma_count_valid_bound(t1.root.entries@);
                lemma_count_valid_update(t1.root.entries@, a as int, new_entry);
            }
            self.root.set_pte(a, new_entry);
            match self.root.incr() {
                Ok(_) => {},
                Err(e) => return Err(e),
            }
            let ghost m = child_mapper;
            match self.mappers.insert(child_ppn, child_mapper) {
                Some(_) => return Err(KernelError::PPNAlreadyMapped(child_ppn)),
                None => {},
            }
            proof {
                Self::lemma_root_add(t1, *self, a as int, m, new_entry);
                assert(self.mapper_frames() =~= t1.mapper_frames().insert(child_ppn));
            }
            Ok(child_ppn)
        } else {
            let child_ppn = entry.ppn();
            if !self.mappers.contains_key(&child_ppn) {
                return Err(KernelError::PPNNotMapped(child_ppn));
            }
            proof {
                assert(self.mapper_frames() =~= t1.mapper_frames().insert(child_ppn));
            }
            Ok(child_ppn)
        }
    }
}

} // verus!

verus! {

impl PageTable {
    /// The last-level mapper under entry `b` of the second-level mapper `p` (the
    /// one under root entry `a`), created in a new frame when the entry is invalid;
    /// `FrameExhausted` when no frame is left for it.
    fn mapper_child(
        &mut self,
        Ghost(a): Ghost<int>,
        p: usize,
        b: usize,
        allocator: &mut BTreeSetFrameAllocator,
    ) -> (r: Result<usize, KernelError>)
        requires
            old(self).wf(),
            old(self).frames_in(&*old(allocator)),
            old(self).l1_valid(a),
            old(self).l1(a) == p,
            b < 512,
        ensures
            final(self).wf(),
            final(self).frames_in(&*final(allocator)),
            Self::frames_kept(&*old(self), &*final(self), &*old(allocator), &*final(allocator)),
            final(self)@ == old(self)@,
            final(self).trackers@ == old(self).trackers@,
            final(self).asid == old(self).asid,
            final(self).root.spec_ppn() == old(self).root.spec_ppn(),
            forall|f: usize| #[trigger] old(self).owns(f) ==> final(self).owns(f),
            forall|f: usize| #[trigger] final(self).owns(f) && !old(self).owns(f) ==> !old(allocator).handed_out(f),
            final(self).l1_valid(a),
            final(self).l1(a) == p,
            old(self).l2_valid(a, b as int) ==> {
                &&& r == Ok::<usize, KernelError>(old(self).l2(a, b as int))
                &&& *final(self) == *old(self)
                &&& alloc_unchanged(&*old(allocator), &*final(allocator))
            },
            !old(self).l2_valid(a, b as int) && old(allocator).available() == 0 ==> {
                &&& r == Err::<usize, KernelError>(KernelError::FrameExhausted)
                &&& *final(self) == *old(self)
                &&& alloc_unchanged(&*old(allocator), &*final(allocator))
            },
            !old(self).l2_valid(a, b as int) && old(allocator).available() > 0 ==> {
                &&& r is Ok
                &&& forall|c: int| !#[trigger] final(self).leaf_valid(a, b as int, c)
                &&& final(allocator).available() == old(allocator).available() - 1
            },
            r is Ok ==> forall|a2: int| #[trigger] final(self).l1_valid(a2) == old(self).l1_valid(a2),
            r is Ok ==> forall|a2: int, b2: int| #[trigger] final(self).l2_valid(a2, b2) == (old(self).l2_valid(
                a2,
                b2,
            ) || (a2 == a && b2 == b)),
            r is Ok ==> final(self).l2_valid(a, b as int) && final(self).l2(a, b as int) == r->Ok_0,
            r is Ok ==> final(self).mapper_frames() == old(self).mapper_frames().insert(r->Ok_0),
    {
        let ghost t1 = *self;
        let entry = self.mappers.get(&p).unwrap().get_pte_array()[b];
        if !entry.is_valid() {
            let tracker = alloc_frame(allocator)?;
            let child_ppn = tracker.ppn();
            proof {
                assert(!t1.owns(child_ppn));
                assert(!t1.mappers@.contains_key(child_ppn));
                assert forall|v: usize| #[trigger] t1.trackers@.contains_key(v) implies t1.trackers@[v].spec_ppn()
                    != child_ppn by {}
            }
            let child_mapper = PageMapper::new(Some(p), tracker);
            let new_entry = PageTableEntry::new(child_ppn, PTEFlags { bits: PTEFlags::V });
            let mut mapper = self.mappers.remove(&p).unwrap();
            proof {
                assert(1u8 & 1u8 == 1u8) by (bit_vector);
                lemma_count_valid_bound(mapper.entries@);
                lemma_count_valid_update(mapper.entries@, b as int, new_entry);
            }
            mapper.set_pte(b, new_entry);
            match mapper.incr() {
                Ok(_) => {},
                Err(e) => return Err(e),
            }
            let ghost pm = mapper;
            self.mappers.insert(p, mapper);
            let ghost m = child_mapper;
            match self.mappers.insert(child_ppn, child_mapper) {
                Some(_) => return Err(KernelError::PPNAlreadyMapped(child_ppn)),
                None => {},
            }
            proof {
                assert(self.mappers@ =~= t1.mappers@.insert(p, pm).insert(child_ppn, m));
                Self::lemma_mapper_add(t1, *self, a, b as int, pm, m, new_entry);
                assert(self.mapper_frames() =~= t1.mapper_frames().insert(child_ppn));
            }
            Ok(child_ppn)
        } else {
            let child_ppn = entry.ppn();
            if !self.mappers.contains_key(&child_ppn) {
                return Err(KernelError::PPNNotMapped(child_ppn));
            }
            proof {
                assert(self.mapper_frames() =~= t1.mapper_frames().insert(child_ppn));
            }
            Ok(child_ppn)
        }
    }

    /// Maps page `vpn` to frame `ppn` with `flags` (and the valid flag), creating the
    /// mappers on the way in new frames of `allocator`; the frame `ppn` itself is not
    /// allocated. `VPNAlreadyMapped` when the page is mapped; `FrameExhausted` when
    /// the mappers it needs cannot all be created, and then no page changes.
    pub fn map_without_alloc(
        &mut self,
        vpn: usize,
        ppn: usize,
        flags: PageTableFlags,
        allocator: &mut BTreeSetFrameAllocator,
    ) -> (r: Result<(), KernelError>)
        requires
            old(self).wf(),
            old(self).frames_in(&*old(allocator)),
            ppn < PPN_LIMIT,
        ensures
            final(self).wf(),
            final(self).frames_in(&*final(allocator)),
            Self::frames_kept(&*old(self), &*final(self), &*old(allocator), &*final(allocator)),
            final(self).trackers() == old(self).trackers(),
            final(self).spec_asid() == old(self).spec_asid(),
            final(self).spec_root_ppn() == old(self).spec_root_ppn(),
            forall|f: usize| #[trigger] old(self).owns(f) ==> final(self).owns(f),
            forall|f: usize| #[trigger] final(self).owns(f) && !old(self).owns(f) ==> !old(allocator).handed_out(f),
            old(self)@.contains_key(vpn_key(vpn)) ==> {
                &&& r == Err::<(), KernelError>(KernelError::VPNAlreadyMapped(vpn))
                &&& final(self)@ == old(self)@
                &&& alloc_unchanged(&*old(allocator), &*final(allocator))
            },
            !old(self)@.contains_key(vpn_key(vpn)) && old(self).needed_frames(vpn_key(vpn)) <= old(
                allocator,
            ).available() ==> {
                &&& r is Ok
                &&& final(self)@ == old(self)@.insert(vpn_key(vpn), spec_pte_new(ppn, flags.bits | 1u8))
                &&& final(allocator).available() == old(allocator).available() - old(self).needed_frames(
                    vpn_key(vpn),
                )
                &&& final(self).l1_set() == old(self).l1_set().insert(index0(vpn_key(vpn) as int))
                &&& final(self).l2_set() == old(self).l2_set().insert(
                    (index0(vpn_key(vpn) as int), index1(vpn_key(vpn) as int)),
                )
                &&& final(self).mapper_frames() == old(self).mapper_frames().insert(
                    final(self).l1_mapper(index0(vpn_key(vpn) as int)),
                ).insert(final(self).l2_mapper(index0(vpn_key(vpn) as int), index1(vpn_key(vpn) as int)))
            },
            !old(self)@.contains_key(vpn_key(vpn)) && old(self).needed_frames(vpn_key(vpn)) > old(
                allocator,
            ).available() ==> {
                &&& r == Err::<(), KernelError>(KernelError::FrameExhausted)
                &&& final(self)@ == old(self)@
            },
    {
        let ghost t0 = *self;
        let ghost k = vpn_key(vpn);
        let bits = flags.bits() | PTEFlags::V;
        let pte_flags = match PTEFlags::from_bits(bits) {
            Some(f) => f,
            None => return Err(KernelError::InvaidPageTablePerm(bits as usize)),
        };
        let indexes = Self::page_indexes(vpn);
        proof {
            lemma_key_indexes(vpn);
            lemma_key_split(k);
        }
        let p1 = self.root_child(indexes[0], allocator)?;
        let ghost t1 = *self;
        let p2 = self.mapper_child(Ghost(indexes[0] as int), p1, indexes[1], allocator)?;
        let ghost t2 = *self;
        let entry = self.mappers.get(&p2).unwrap().get_pte_array()[indexes[2]];
        if !entry.is_valid() {
            let new_entry = PageTableEntry::new(ppn, pte_flags);
            let mut mapper = self.mappers.remove(&p2).unwrap();
            proof {
                assert(new_entry.spec_valid()) by {
                    let fb = flags.bits;
                    assert((fb | 1u8) & 1u8 == 1u8) by (bit_vector);
                }
                lemma_count_valid_bound(mapper.entries@);
                lemma_count_valid_update(mapper.entries@, indexes[2] as int, new_entry);
            }
            mapper.set_pte(indexes[2], new_entry);
            match mapper.incr() {
                Ok(_) => {},
                Err(e) => return Err(e),
            }
            let ghost pm = mapper;
            self.mappers.insert(p2, mapper);
            proof {
                assert(self.mappers@ =~= t2.mappers@.insert(p2, pm));
                Self::lemma_leaf_set(t2, *self, k, pm, new_entry);
                assert(self.l1_set() =~= t0.l1_set().insert(index0(k as int)));
                assert(self.l2_set() =~= t0.l2_set().insert((index0(k as int), index1(k as int))));
                assert(self.l1(index0(k as int)) == p1);
                assert(self.l2(index0(k as int), index1(k as int)) == p2);
                assert(self.mapper_frames() =~= t0.mapper_frames().insert(p1).insert(p2));
            }
            Ok(())
        } else {
            Err(KernelError::VPNAlreadyMapped(vpn))
        }
    }
}

} // verus!

verus! {

impl PageTable {
    proof fn lemma_owns_same_trackers(t1: PageTable, t2: PageTable, f: usize)
        requires
            t2.trackers@ == t1.trackers@,
        ensures
            (exists|v: usize| #[trigger] t2.trackers@.contains_key(v) && t2.trackers@[v].spec_ppn() == f)
                == (exists|v: usize| #[trigger] t1.trackers@.contains_key(v) && t1.trackers@[v].spec_ppn() == f),
    {
        if exists|v: usize| #[trigger] t2.trackers@.contains_key(v) && t2.trackers@[v].spec_ppn() == f {
            let v = choose|v: usize| #[trigger] t2.trackers@.contains_key(v) && t2.trackers@[v].spec_ppn() == f;
            assert(t1.trackers@.contains_key(v));
        }
        if exists|v: usize| #[trigger] t1.trackers@.contains_key(v) && t1.trackers@[v].spec_ppn() == f {
            let v = choose|v: usize| #[trigger] t1.trackers@.contains_key(v) && t1.trackers@[v].spec_ppn() == f;
            assert(t2.trackers@.contains_key(v));
        }
    }

    /// The valid leaf entry of key `k` is cleared and its mapper keeps other valid
    /// entries.
    proof fn lemma_leaf_clear(t1: PageTable, t2: PageTable, k: usize, pm: PageMapper)
        requires
            t1.wf(),
            k < VPN_LIMIT,
            t1.leaf_valid(index0(k as int), index1(k as int), index2(k as int)),
            pm.entries@ == t1.mappers@[t1.l2(index0(k as int), index1(k as int))].entries@.update(
                index2(k as int),
                PageTableEntry { bits: 0 },
            ),
            pm.count + 1 == t1.mappers@[t1.l2(index0(k as int), index1(k as int))].count,
            pm.tracker == t1.mappers@[t1.l2(index0(k as int), index1(k as int))].tracker,
            pm.parent == t1.mappers@[t1.l2(index0(k as int), index1(k as int))].parent,
            t2.root == t1.root,
            t2.mappers@ == t1.mappers@.insert(t1.l2(index0(k as int), index1(k as int)), pm),
            t2.trackers@ == t1.trackers@,
        ensures
            t2.wf(),
            t2@ == t1@.remove(k),
            forall|f: usize| #[trigger] t2.owns(f) == t1.owns(f),
            t2.l1_set() == t1.l1_set(),
            t2.l2_set() == t1.l2_set(),
            count_valid(pm.entries@) > 0 ==> pair_used(t2@, index0(k as int), index1(k as int)),
            t2.mapper_frames() == t1.mapper_frames(),
    {
        let a = index0(k as int);
        let b = index1(k as int);
        let c = index2(k as int);
        let e = PageTableEntry { bits: 0 };
        assert(!(0u64 & 1 == 1)) by (bit_vector);
        lemma_key_split(k);
        let p = t1.l2(a, b);
        lemma_count_valid_update(t1.mappers@[p].entries@, c, e);
        lemma_count_valid_bound(pm.entries@);
        assert forall|a2: int| #[trigger] t2.l1_valid(a2) == t1.l1_valid(a2) && t2.l1(a2) == t1.l1(a2) by {}
        assert forall|a2: int, b2: int| #[trigger] t2.l2_valid(a2, b2) == t1.l2_valid(a2, b2) && (
        t1.l2_valid(a2, b2) ==> t2.l2(a2, b2) == t1.l2(a2, b2)) by {
            if t1.l1_valid(a2) {
                assert(t1.l1(a2) != p);
            }
        }
        assert forall|a2: int, b2: int, c2: int| #[trigger] t2.leaf_valid(a2, b2, c2) == (t1.leaf_valid(
            a2,
            b2,
            c2,
        ) && !(a2 == a && b2 == b && c2 == c)) && (t2.leaf_valid(a2, b2, c2) ==> t2.leaf(a2, b2, c2)
            == t1.leaf(a2, b2, c2)) by {
            if t1.l2_valid(a2, b2) && (a2 != a || b2 != b) {
                assert(t1.l2(a2, b2) != p);
            }
        }
        assert forall|p2: usize| #[trigger] t2.mappers@.contains_key(p2) implies t2.mappers@[p2].wf()
            && t2.mappers@[p2].spec_ppn() == p2 by {}
        assert(t2.wf_mappers());
        assert(t2.wf_tree());
        assert forall|k2: usize| #[trigger] t2@.contains_key(k2) == t1@.remove(k).contains_key(k2) && (
        t2@.contains_key(k2) ==> t2@[k2] == t1@.remove(k)[k2]) by {
            if k2 < VPN_LIMIT && index0(k2 as int) == a && index1(k2 as int) == b && index2(k2 as int) == c {
                lemma_key_unique(k, k2);
            }
        }
        assert(t2@ =~= t1@.remove(k));
        assert forall|f: usize| #[trigger] t2.owns(f) == t1.owns(f) by {
            Self::lemma_owns_same_trackers(t1, t2, f);
        }
        assert(t2.l1_set() =~= t1.l1_set());
        assert(t2.l2_set() =~= t1.l2_set());
        assert(t2.mapper_frames() =~= t1.mapper_frames());
        if count_valid(pm.entries@) > 0 {
            let i = choose|i: int| 0 <= i < pm.entries@.len() && #[trigger] pm.entries@[i].spec_valid();
            assert(i != c);
            assert(pm.entries@.len() == 512);
            lemma_key_join(a, b, i);
            let k2 = key_of(a, b, i) as usize;
            assert(t2.ment(p, i) == pm.entries@[i]);
            assert(t2.l2_valid(a, b));
            assert(t2.leaf_valid(a, b, i));
            assert(t2@.contains_key(k2));
        }
    }

    /// The valid leaf entry of key `k` was the only valid entry of its mapper, which
    /// is dropped together with the entry that led to it.
    proof fn lemma_leaf_clear_drop_l2(t1: PageTable, t2: PageTable, k: usize, pm1: PageMapper)
        requires
            t1.wf(),
            k < VPN_LIMIT,
            t1.leaf_valid(index0(k as int), index1(k as int), index2(k as int)),
            count_valid(
                t1.mappers@[t1.l2(index0(k as int), index1(k as int))].entries@.update(
                    index2(k as int),
                    PageTableEntry { bits: 0 },
                ),
            ) == 0,
            pm1.entries@ == t1.mappers@[t1.l1(index0(k as int))].entries@.update(
                index1(k as int),
                PageTableEntry { bits: 0 },
            ),
            pm1.count + 1 == t1.mappers@[t1.l1(index0(k as int))].count,
            pm1.tracker == t1.mappers@[t1.l1(index0(k as int))].tracker,
            pm1.parent == t1.mappers@[t1.l1(index0(k as int))].parent,
            t2.root == t1.root,
            t2.mappers@ == t1.mappers@.remove(t1.l2(index0(k as int), index1(k as int))).insert(
                t1.l1(index0(k as int)),
                pm1,
            ),
            t2.trackers@ == t1.trackers@,
        ensures
            t2.wf(),
            t2@ == t1@.remove(k),
            forall|f: usize| #[trigger] t2.owns(f) == (t1.owns(f) && f != t1.l2(
                index0(k as int),
                index1(k as int),
            )),
            t2.l1_set() == t1.l1_set(),
            t2.l2_set() == t1.l2_set().remove((index0(k as int), index1(k as int))),
            !pair_used(t2@, index0(k as int), index1(k as int)),
            count_valid(pm1.entries@) > 0 ==> exists|b2: int| #[trigger] t2.l2_set().contains((index0(k as int), b2)),
            t2.mapper_frames() == t1.mapper_frames().remove(t1.l2_mapper(index0(k as int), index1(k as int))),
    {
        let a = index0(k as int);
        let b = index1(k as int);
        let c = index2(k as int);
        let e = PageTableEntry { bits: 0 };
        assert(!(0u64 & 1 == 1)) by (bit_vector);
        lemma_key_split(k);
        let p1 = t1.l1(a);
        let p2 = t1.l2(a, b);
        lemma_count_valid_update(t1.mappers@[p1].entries@, b, e);
        lemma_count_valid_bound(t1.mappers@[p2].entries@.update(c, e));
        assert(p1 != p2);
        assert forall|a2: int| #[trigger] t2.l1_valid(a2) == t1.l1_valid(a2) && t2.l1(a2) == t1.l1(a2) by {}
        assert forall|a2: int, b2: int| #[trigger] t2.l2_valid(a2, b2) == (t1.l2_valid(a2, b2) && !(a2 == a
            && b2 == b)) && (t2.l2_valid(a2, b2) ==> t2.l2(a2, b2) == t1.l2(a2, b2)) by {
            if t1.l1_valid(a2) && a2 != a {
                assert(t1.l1(a2) != p1);
                assert(t1.l1(a2) != p2);
            }
        }
        assert forall|a2: int, b2: int, c2: int| #[trigger] t2.leaf_valid(a2, b2, c2) == (t1.leaf_valid(
            a2,
            b2,
            c2,
        ) && !(a2 == a && b2 == b)) && (t2.leaf_valid(a2, b2, c2) ==> t2.leaf(a2, b2, c2) == t1.leaf(
            a2,
            b2,
            c2,
        )) by {
            if t2.l2_valid(a2, b2) {
                assert(t1.l2(a2, b2) != p2);
                assert(t1.l2(a2, b2) != p1);
            }
        }
        assert forall|c2: int| #[trigger] t1.leaf_valid(a, b, c2) implies c2 == c by {
            if c2 != c {
                assert(t1.mappers@[p2].entries@.update(c, e)[c2] == t1.mappers@[p2].entries@[c2]);
            }
        }
        assert forall|p: usize| #[trigger] t2.mappers@.contains_key(p) implies t2.mappers@[p].wf()
            && t2.mappers@[p].spec_ppn() == p by {}
        assert(t2.wf_mappers());
        assert(t2.wf_tree());
        assert forall|v: usize| #[trigger] t2.trackers@.contains_key(v) implies !t2.mappers@.contains_key(
            t2.trackers@[v].spec_ppn(),
        ) by {}
        assert(t2.wf_trackers());
        assert forall|k2: usize| #[trigger] t2@.contains_key(k2) == t1@.remove(k).contains_key(k2) && (
        t2@.contains_key(k2) ==> t2@[k2] == t1@.remove(k)[k2]) by {
            if k2 < VPN_LIMIT && index0(k2 as int) == a && index1(k2 as int) == b {
                if t1.leaf_valid(a, b, index2(k2 as int)) {
                    lemma_key_unique(k, k2);
                }
            }
        }
        assert(t2@ =~= t1@.remove(k));
        assert forall|f: usize| #[trigger] t2.owns(f) == (t1.owns(f) && f != p2) by {
            Self::lemma_owns_same_trackers(t1, t2, f);
            if exists|v: usize| #[trigger] t1.trackers@.contains_key(v) && t1.trackers@[v].spec_ppn() == f {
                let v = choose|v: usize| #[trigger] t1.trackers@.contains_key(v) && t1.trackers@[v].spec_ppn() == f;
                assert(f != p2);
            }
        }
        assert(t2.l1_set() =~= t1.l1_set());
        assert(t2.l2_set() =~= t1.l2_set().remove((a, b)));
        assert(t2.mapper_frames() =~= t1.mapper_frames().remove(p2));
        assert forall|k2: usize| #[trigger] t2@.contains_key(k2) implies !(index0(k2 as int) == a && index1(k2 as int)
            == b) by {}
        lemma_count_valid_bound(pm1.entries@);
        if count_valid(pm1.entries@) > 0 {
            let i = choose|i: int| 0 <= i < pm1.entries@.len() && #[trigger] pm1.entries@[i].spec_valid();
            assert(i != b);
            assert(t2.ment(p1, i) == pm1.entries@[i]);
            assert(t2.l2_valid(a, i));
            assert(t2.l2_set().contains((a, i)));
        }
    }

    /// The valid leaf entry of key `k` was the only valid entry of its mapper, and
    /// the entry leading to that mapper the only valid entry of its own mapper: both
    /// mappers are dropped and the root entry is cleared.
    proof fn lemma_leaf_clear_drop_l1(t1: PageTable, t2: PageTable, k: usize)
        requires
            t1.wf(),
            k < VPN_LIMIT,
            t1.leaf_valid(index0(k as int), index1(k as int), index2(k as int)),
            count_valid(
                t1.mappers@[t1.l2(index0(k as int), index1(k as int))].entries@.update(
                    index2(k as int),
                    PageTableEntry { bits: 0 },
                ),
            ) == 0,
            count_valid(
                t1.mappers@[t1.l1(index0(k as int))].entries@.update(
                    index1(k as int),
                    PageTableEntry { bits: 0 },
                ),
            ) == 0,
            t2.root.entries@ == t1.root.entries@.update(index0(k as int), PageTableEntry { bits: 0 }),
            t2.root.count + 1 == t1.root.count,
            t2.root.tracker == t1.root.tracker,
            t2.mappers@ == t1.mappers@.remove(t1.l2(index0(k as int), index1(k as int))).remove(
                t1.l1(index0(k as int)),
            ),
            t2.trackers@ == t1.trackers@,
        ensures
            t2.wf(),
            t2@ == t1@.remove(k),
            forall|f: usize| #[trigger] t2.owns(f) == (t1.owns(f) && f != t1.l2(
                index0(k as int),
                index1(k as int),
            ) && f != t1.l1(index0(k as int))),
            t2.l1_set() == t1.l1_set().remove(index0(k as int)),
            t2.l2_set() == t1.l2_set().remove((index0(k as int), index1(k as int))),
            !pair_used(t2@, index0(k as int), index1(k as int)),
            forall|b2: int| !#[trigger] t2.l2_set().contains((index0(k as int), b2)),
            t2.mapper_frames() == t1.mapper_frames().remove(t1.l2_mapper(index0(k as int), index1(k as int))).remove(
                t1.l1_mapper(index0(k as int)),
            ),
    {
        let a = index0(k as int);
        let b = index1(k as int);
        let c = index2(k as int);
        let e = PageTableEntry { bits: 0 };
        assert(!(0u64 & 1 == 1)) by (bit_vector);
        lemma_key_split(k);
        let p1 = t1.l1(a);
        let p2 = t1.l2(a, b);
        lemma_count_valid_update(t1.root.entries@, a, e);
        lemma_count_valid_bound(t1.mappers@[p2].entries@.update(c, e));
        lemma_count_valid_bound(t1.mappers@[p1].entries@.update(b, e));
        assert(p1 != p2);
        assert forall|a2: int| 0 <= a2 < 512 implies #[trigger] t2.l1_valid(a2) == (t1.l1_valid(a2) && a2 != a)
            && (a2 != a ==> t2.l1(a2) == t1.l1(a2)) by {}
        assert forall|b2: int| #[trigger] t1.l2_valid(a, b2) implies b2 == b by {
            if b2 != b {
                assert(t1.mappers@[p1].entries@.update(b, e)[b2] == t1.mappers@[p1].entries@[b2]);
            }
        }
        assert forall|c2: int| #[trigger] t1.leaf_valid(a, b, c2) implies c2 == c by {
            if c2 != c {
                assert(t1.mappers@[p2].entries@.update(c, e)[c2] == t1.mappers@[p2].entries@[c2]);
            }
        }
        assert forall|a2: int, b2: int| #[trigger] t2.l2_valid(a2, b2) == (t1.l2_valid(a2, b2) && a2 != a) && (
        t2.l2_valid(a2, b2) ==> t2.l2(a2, b2) == t1.l2(a2, b2)) by {
            if t1.l1_valid(a2) && a2 != a {
                assert(t1.l1(a2) != p1);
                assert(t1.l1(a2) != p2);
            }
        }
        assert forall|a2: int, b2: int, c2: int| #[trigger] t2.leaf_valid(a2, b2, c2) == (t1.leaf_valid(
            a2,
            b2,
            c2,
        ) && a2 != a) && (t2.leaf_valid(a2, b2, c2) ==> t2.leaf(a2, b2, c2) == t1.leaf(a2, b2, c2)) by {
            if t2.l2_valid(a2, b2) {
                assert(t1.l2(a2, b2) != p2);
                assert(t1.l2(a2, b2) != p1);
            }
        }
        assert forall|p: usize| #[trigger] t2.mappers@.contains_key(p) implies t2.mappers@[p].wf()
            && t2.mappers@[p].spec_ppn() == p by {}
        assert(t2.wf_mappers());
        assert(t2.wf_tree());
        assert forall|v: usize| #[trigger] t2.trackers@.contains_key(v) implies !t2.mappers@.contains_key(
            t2.trackers@[v].spec_ppn(),
        ) by {}
        assert(t2.wf_trackers());
        assert forall|k2: usize| #[trigger] t2@.contains_key(k2) == t1@.remove(k).contains_key(k2) && (
        t2@.contains_key(k2) ==> t2@[k2] == t1@.remove(k)[k2]) by {
            if k2 < VPN_LIMIT && index0(k2 as int) == a {
                if t1.leaf_valid(a, index1(k2 as int), index2(k2 as int)) {
                    lemma_key_unique(k, k2);
                }
            }
        }
        assert(t2@ =~= t1@.remove(k));
        assert forall|f: usize| #[trigger] t2.owns(f) == (t1.owns(f) && f != p2 && f != p1) by {
            Self::lemma_owns_same_trackers(t1, t2, f);
        }
        assert(t2.l1_set() =~= t1.l1_set().remove(a));
        assert(t2.l2_set() =~= t1.l2_set().remove((a, b)));
        assert(t2.mapper_frames() =~= t1.mapper_frames().remove(p2).remove(p1));
        assert forall|k2: usize| #[trigger] t2@.contains_key(k2) implies !(index0(k2 as int) == a && index1(k2 as int)
            == b) by {}
    }
}

} // verus!

verus! {

impl PageTable {
    /// Removes the mapping of page `vpn` and returns the frame it was mapped to; the
    /// mappers left without valid entries are dropped and their frames go back to
    /// `allocator`, while the page's frame is not released. `VPNNotMapped` when the
    /// page is not mapped.
    pub fn unmap_without_dealloc(&mut self, vpn: usize, allocator: &mut BTreeSetFrameAllocator) -> (r:
        Result<usize, KernelError>)
        requires
            old(self).wf(),
            old(self).frames_in(&*old(allocator)),
        ensures
            final(self).wf(),
            final(self).frames_in(&*final(allocator)),
            Self::frames_kept(&*old(self), &*final(self), &*old(allocator), &*final(allocator)),
            final(self).trackers() == old(self).trackers(),
            final(self).spec_asid() == old(self).spec_asid(),
            final(self).spec_root_ppn() == old(self).spec_root_ppn(),
            forall|f: usize| #[trigger] final(self).owns(f) ==> old(self).owns(f),
            forall|f: usize| #[trigger] old(self).owns(f) && !final(self).owns(f) ==> !final(allocator).handed_out(f),
            old(self)@.contains_key(vpn_key(vpn)) ==> {
                let a = index0(vpn_key(vpn) as int);
                let b = index1(vpn_key(vpn) as int);
                &&& r == Ok::<usize, KernelError>(old(self)@[vpn_key(vpn)].spec_ppn())
                &&& final(self)@ == old(self)@.remove(vpn_key(vpn))
                &&& final(self).l2_set() == if pair_used(final(self)@, a, b) {
                    old(self).l2_set()
                } else {
                    old(self).l2_set().remove((a, b))
                }
                &&& final(self).l1_set() == if exists|b2: int| #[trigger] final(self).l2_set().contains((a, b2)) {
                    old(self).l1_set()
                } else {
                    old(self).l1_set().remove(a)
                }
                &&& final(self).mapper_frames() == if pair_used(final(self)@, a, b) {
                    old(self).mapper_frames()
                } else if exists|b2: int| #[trigger] final(self).l2_set().contains((a, b2)) {
                    old(self).mapper_frames().remove(old(self).l2_mapper(a, b))
                } else {
                    old(self).mapper_frames().remove(old(self).l2_mapper(a, b)).remove(old(self).l1_mapper(a))
                }
                &&& !pair_used(final(self)@, a, b) ==> !final(allocator).handed_out(old(self).l2_mapper(a, b))
                &&& (forall|b2: int| !#[trigger] final(self).l2_set().contains((a, b2)))
                    ==> !final(allocator).handed_out(old(self).l1_mapper(a))
            },
            !old(self)@.contains_key(vpn_key(vpn)) ==> {
                &&& r == Err::<usize, KernelError>(KernelError::VPNNotMapped(vpn))
                &&& *final(self) == *old(self)
                &&& alloc_unchanged(&*old(allocator), &*final(allocator))
            },
    {
        let ghost t0 = *self;
        let ghost k = vpn_key(vpn);
        let indexes = Self::page_indexes(vpn);
        proof {
            lemma_key_indexes(vpn);
            lemma_key_split(k);
            assert(!(0u64 & 1 == 1)) by (bit_vector);
        }
        let entry0 = self.root.get_pte_array()[indexes[0]];
        if !entry0.is_valid() {
            return Err(KernelError::VPNNotMapped(vpn));
        }
        let p1 = entry0.ppn();
        let entry1 = match self.mappers.get(&p1) {
            Some(m) => m.get_pte_array()[indexes[1]],
            None => return Err(KernelError::PPNNotMapped(p1)),
        };
        if !entry1.is_valid() {
            return Err(KernelError::VPNNotMapped(vpn));
        }
        let p2 = entry1.ppn();
        let entry2 = match self.mappers.get(&p2) {
            Some(m) => m.get_pte_array()[indexes[2]],
            None => return Err(KernelError::PPNNotMapped(p2)),
        };
        if !entry2.is_valid() {
            return Err(KernelError::VPNNotMapped(vpn));
        }
        let return_ppn = entry2.ppn();
        proof {
            assert(t0.l2_valid(indexes[0] as int, indexes[1] as int));
            assert(t0.mappers@[p2].parent == Some(p1));
        }
        let empty = PageTableEntry::empty();
        // the last-level mapper
        let mut mapper2 = self.mappers.remove(&p2).unwrap();
        proof {
            lemma_count_valid_bound(mapper2.entries@);
            lemma_count_valid_update(mapper2.entries@, indexes[2] as int, empty);
        }
        match mapper2.decr() {
            Ok(_) => {},
            Err(e) => return Err(e),
        }
        mapper2.set_pte(indexes[2], empty);
        if !mapper2.is_empty() {
            let ghost pm2 = mapper2;
            self.mappers.insert(p2, mapper2);
            proof {
                assert(self.mappers@ =~= t0.mappers@.insert(p2, pm2));
                Self::lemma_leaf_clear(t0, *self, k, pm2);
                assert(count_valid(pm2.entries@) > 0);
                assert(t0.l2_set().contains((indexes[0] as int, indexes[1] as int)));
            }
            return Ok(return_ppn);
        }
        let parent = match mapper2.parent {
            Some(p) => p,
            None => return Err(KernelError::PPNNotMapped(p2)),
        };
        let ghost before_free2 = *allocator;
        let freed = dealloc_frame(allocator, mapper2.tracker);
        proof {
            assert(t0.owns(p2));
            assert(freed is Ok);
        }
        // the second-level mapper
        let mut mapper1 = self.mappers.remove(&parent).unwrap();
        proof {
            lemma_count_valid_bound(mapper1.entries@);
            lemma_count_valid_update(mapper1.entries@, indexes[1] as int, empty);
        }
        match mapper1.decr() {
            Ok(_) => {},
            Err(e) => return Err(e),
        }
        mapper1.set_pte(indexes[1], empty);
        if !mapper1.is_empty() {
            let ghost pm1 = mapper1;
            self.mappers.insert(parent, mapper1);
            proof {
                assert(self.mappers@ =~= t0.mappers@.remove(p2).insert(p1, pm1));
                Self::lemma_leaf_clear_drop_l2(t0, *self, k, pm1);
            }
            return Ok(return_ppn);
        }
        let freed = dealloc_frame(allocator, mapper1.tracker);
        proof {
            assert(t0.owns(p1));
            assert(freed is Ok);
        }
        // the root mapper
        proof {
            lemma_count_valid_bound(self.root.entries@);
            lemma_count_valid_update(self.root.entries@, indexes[0] as int, empty);
        }
        match self.root.decr() {
            Ok(_) => {},
            Err(e) => return Err(e),
        }
        self.root.set_pte(indexes[0], empty);
        proof {
            assert(self.mappers@ =~= t0.mappers@.remove(p2).remove(p1));
            Self::lemma_leaf_clear_drop_l1(t0, *self, k);
        }
        Ok(return_ppn)
    }
}

} // verus!

verus! {

impl PageTable {
    /// The table after the data frame of page `v` becomes `tr`, whose frame the
    /// table did not own.
    proof fn lemma_tracker_insert(t1: PageTable, t2: PageTable, v: usize, tr: FrameTracker)
        requires
            t1.wf(),
            tr.wf(),
            !t1.owns(tr.spec_ppn()),
            t2.root == t1.root,
            t2.mappers@ == t1.mappers@,
            t2.trackers@ == t1.trackers@.insert(v, tr),
        ensures
            t2.wf(),
            t2@ == t1@,
            t2.l1_set() == t1.l1_set(),
            t2.l2_set() == t1.l2_set(),
            t2.mapper_frames() == t1.mapper_frames(),
            forall|a: int| #[trigger] t2.l1_mapper(a) == t1.l1_mapper(a),
            forall|a: int, b: int| #[trigger] t2.l2_mapper(a, b) == t1.l2_mapper(a, b),
            forall|f: usize| #[trigger] t2.owns(f) == (f == tr.spec_ppn() || (t1.owns(f) && !(
            t1.trackers@.contains_key(v) && f == t1.trackers@[v].spec_ppn()))),
    {
        assert(forall|w: usize| #[trigger] t1.trackers@.contains_key(w) ==> t1.owns(t1.trackers@[w].spec_ppn()));
        assert(t2.l1_set() =~= t1.l1_set());
        assert(t2.l2_set() =~= t1.l2_set());
        assert forall|a2: int| #[trigger] t2.l1_valid(a2) == t1.l1_valid(a2) && t2.l1(a2) == t1.l1(a2) by {}
        assert forall|a2: int, b2: int| #[trigger] t2.l2_valid(a2, b2) == t1.l2_valid(a2, b2) && t2.l2(a2, b2)
            == t1.l2(a2, b2) by {}
        assert forall|a2: int, b2: int, c2: int| #[trigger] t2.leaf_valid(a2, b2, c2) == t1.leaf_valid(a2, b2, c2)
            && t2.leaf(a2, b2, c2) == t1.leaf(a2, b2, c2) by {}
        assert(t2.wf_tree());
        assert(t2@ =~= t1@);
        assert forall|f: usize| #[trigger] t2.owns(f) == (f == tr.spec_ppn() || (t1.owns(f) && !(
        t1.trackers@.contains_key(v) && f == t1.trackers@[v].spec_ppn()))) by {
            if exists|w: usize| #[trigger] t2.trackers@.contains_key(w) && t2.trackers@[w].spec_ppn() == f {
                let w = choose|w: usize| #[trigger] t2.trackers@.contains_key(w) && t2.trackers@[w].spec_ppn() == f;
                if w != v {
                    assert(t1.trackers@.contains_key(w));
                }
            }
            if exists|w: usize| #[trigger] t1.trackers@.contains_key(w) && t1.trackers@[w].spec_ppn() == f {
                let w = choose|w: usize| #[trigger] t1.trackers@.contains_key(w) && t1.trackers@[w].spec_ppn() == f;
                if w != v {
                    assert(t2.trackers@.contains_key(w));
                }
            }
            if f == tr.spec_ppn() {
                assert(t2.trackers@.contains_key(v));
            }
        }
    }

    proof fn lemma_same_parts(t1: PageTable, t2: PageTable)
        requires
            t1.wf(),
            t2.root == t1.root,
            t2.mappers@ == t1.mappers@,
            t2.trackers@ == t1.trackers@,
        ensures
            t2.wf(),
            t2@ == t1@,
            forall|f: usize| #[trigger] t2.owns(f) == t1.owns(f),
            t2.mapper_frames() == t1.mapper_frames(),
            t2.l1_set() == t1.l1_set(),
            t2.l2_set() == t1.l2_set(),
    {
        assert(t2.l1_set() =~= t1.l1_set());
        assert(t2.l2_set() =~= t1.l2_set());
        assert forall|a2: int| #[trigger] t2.l1_valid(a2) == t1.l1_valid(a2) && t2.l1(a2) == t1.l1(a2) by {}
        assert forall|a2: int, b2: int| #[trigger] t2.l2_valid(a2, b2) == t1.l2_valid(a2, b2) && t2.l2(a2, b2)
            == t1.l2(a2, b2) by {}
        assert forall|a2: int, b2: int, c2: int| #[trigger] t2.leaf_valid(a2, b2, c2) == t1.leaf_valid(a2, b2, c2)
            && t2.leaf(a2, b2, c2) == t1.leaf(a2, b2, c2) by {}
        assert(t2.wf_tree());
        assert(t2@ =~= t1@);
        assert forall|f: usize| #[trigger] t2.owns(f) == t1.owns(f) by {
            Self::lemma_owns_same_trackers(t1, t2, f);
        }
    }

    /// The table after the data frame of page `v` is dropped.
    proof fn lemma_tracker_remove(t1: PageTable, t2: PageTable, v: usize)
        requires
            t1.wf(),
            t1.trackers@.contains_key(v),
            t2.root == t1.root,
            t2.mappers@ == t1.mappers@,
            t2.trackers@ == t1.trackers@.remove(v),
        ensures
            t2.wf(),
            t2@ == t1@,
            forall|f: usize| #[trigger] t2.owns(f) == (t1.owns(f) && f != t1.trackers@[v].spec_ppn()),
            t2.mapper_frames() == t1.mapper_frames(),
            t2.l1_set() == t1.l1_set(),
            t2.l2_set() == t1.l2_set(),
    {
        assert(t2.l1_set() =~= t1.l1_set());
        assert(t2.l2_set() =~= t1.l2_set());
        assert forall|a2: int| #[trigger] t2.l1_valid(a2) == t1.l1_valid(a2) && t2.l1(a2) == t1.l1(a2) by {}
        assert forall|a2: int, b2: int| #[trigger] t2.l2_valid(a2, b2) == t1.l2_valid(a2, b2) && t2.l2(a2, b2)
            == t1.l2(a2, b2) by {}
        assert forall|a2: int, b2: int, c2: int| #[trigger] t2.leaf_valid(a2, b2, c2) == t1.leaf_valid(a2, b2, c2)
            && t2.leaf(a2, b2, c2) == t1.leaf(a2, b2, c2) by {}
        assert(t2.wf_tree());
        assert(t2@ =~= t1@);
        assert forall|f: usize| #[trigger] t2.owns(f) == (t1.owns(f) && f != t1.trackers@[v].spec_ppn()) by {
            if exists|w: usize| #[trigger] t2.trackers@.contains_key(w) && t2.trackers@[w].spec_ppn() == f {
                let w = choose|w: usize| #[trigger] t2.trackers@.contains_key(w) && t2.trackers@[w].spec_ppn() == f;
                assert(t1.trackers@.contains_key(w));
            }
            if exists|w: usize| #[trigger] t1.trackers@.contains_key(w) && t1.trackers@[w].spec_ppn() == f {
                let w = choose|w: usize| #[trigger] t1.trackers@.contains_key(w) && t1.trackers@[w].spec_ppn() == f;
                if w != v {
                    assert(t2.trackers@.contains_key(w));
                }
            }
        }
    }

    /// Maps page `vpn` with `flags` to a new, cleared data frame of `allocator` and
    /// returns the frame. `InvaidPageTablePerm` when `flags` is empty;
    /// `FrameExhausted` when the data frame and the mappers it needs cannot all be
    /// had; `VPNAlreadyMapped` when the page is mapped. In these cases no page
    /// changes and the data frame, if one was taken, goes back. When a data frame
    /// was still recorded for `vpn` (its mapping removed without releasing it), the
    /// page is mapped anyway, the old frame goes back and the result is
    /// `VPNAlreadyMapped`.
    pub fn map(&mut self, vpn: usize, flags: PageTableFlags, allocator: &mut BTreeSetFrameAllocator) -> (r:
        Result<usize, KernelError>)
        requires
            old(self).wf(),
            old(self).frames_in(&*old(allocator)),
        ensures
            final(self).wf(),
            final(self).frames_in(&*final(allocator)),
            Self::frames_kept(&*old(self), &*final(self), &*old(allocator), &*final(allocator)),
            final(self).spec_asid() == old(self).spec_asid(),
            final(self).spec_root_ppn() == old(self).spec_root_ppn(),
            forall|f: usize| #[trigger] final(self).owns(f) && !old(self).owns(f) ==> !old(allocator).handed_out(f),
            flags.bits == 0 ==> {
                &&& r == Err::<usize, KernelError>(KernelError::InvaidPageTablePerm(0))
                &&& *final(self) == *old(self)
                &&& alloc_unchanged(&*old(allocator), &*final(allocator))
            },
            flags.bits != 0 && old(allocator).available() == 0 ==> {
                &&& r == Err::<usize, KernelError>(KernelError::FrameExhausted)
                &&& *final(self) == *old(self)
                &&& alloc_unchanged(&*old(allocator), &*final(allocator))
            },
            flags.bits != 0 && old(allocator).available() > 0 && old(self)@.contains_key(vpn_key(vpn))
                ==> {
                &&& r == Err::<usize, KernelError>(KernelError::VPNAlreadyMapped(vpn))
                &&& final(self)@ == old(self)@
                &&& final(self).trackers() == old(self).trackers()
            },
            flags.bits != 0 && old(allocator).available() > 0 && !old(self)@.contains_key(vpn_key(vpn))
                && old(self).needed_frames(vpn_key(vpn)) + 1 > old(allocator).available() ==> {
                &&& r == Err::<usize, KernelError>(KernelError::FrameExhausted)
                &&& final(self)@ == old(self)@
                &&& final(self).trackers() == old(self).trackers()
            },
            flags.bits != 0 && !old(self)@.contains_key(vpn_key(vpn)) && old(self).needed_frames(
                vpn_key(vpn),
            ) + 1 <= old(allocator).available() ==> {
                let ppn = final(self).trackers()[vpn].spec_ppn();
                &&& !old(allocator).handed_out(ppn)
                &&& ppn < PPN_LIMIT
                &&& final(self)@ == old(self)@.insert(vpn_key(vpn), spec_pte_new(ppn, flags.bits | 1u8))
                &&& final(self).trackers().contains_key(vpn)
                &&& final(self).trackers()[vpn]@ == crate::frame::zero_page()
                &&& final(self).trackers() == old(self).trackers().insert(vpn, final(self).trackers()[vpn])
                &&& !old(self).trackers().contains_key(vpn) ==> r == Ok::<usize, KernelError>(ppn)
                &&& old(self).trackers().contains_key(vpn) ==> r == Err::<usize, KernelError>(
                    KernelError::VPNAlreadyMapped(vpn),
                )
                &&& final(self).l1_set() == old(self).l1_set().insert(index0(vpn_key(vpn) as int))
                &&& final(self).l2_set() == old(self).l2_set().insert(
                    (index0(vpn_key(vpn) as int), index1(vpn_key(vpn) as int)),
                )
                &&& !old(self).trackers().contains_key(vpn) ==> final(allocator).available() == old(
                    allocator,
                ).available() - old(self).needed_frames(vpn_key(vpn)) - 1
                &&& !old(self).trackers().contains_key(vpn) ==> forall|f: usize| #[trigger] old(self).owns(f)
                    ==> final(self).owns(f)
                &&& final(self).mapper_frames() == old(self).mapper_frames().insert(
                    final(self).l1_mapper(index0(vpn_key(vpn) as int)),
                ).insert(final(self).l2_mapper(index0(vpn_key(vpn) as int), index1(vpn_key(vpn) as int)))
            },
    {
        if !flags.is_empty() {
            let ghost t0 = *self;
            let ghost a0 = *allocator;
            let tracker = alloc_frame(allocator)?;
            let ppn = tracker.ppn();
            proof {
                assert(!t0.owns(ppn));
                assert(ppn < allocator.spec_end_ppn());
            }
            let ghost a1 = *allocator;
            match self.map_without_alloc(vpn, ppn, flags, allocator) {
                Ok(()) => {},
                Err(e) => {
                    let freed = dealloc_frame(allocator, tracker);
                    proof {
                        assert(a1.handed_out(ppn));
                        assert(!self.owns(ppn));
                        assert(freed is Ok);
                    }
                    return Err(e);
                },
            }
            let ghost t1 = *self;
            let ghost tr = tracker;
            proof {
                assert(!t1.owns(ppn));
            }
            match self.trackers.insert(vpn, tracker) {
                Some(old_tracker) => {
                    proof {
                        Self::lemma_tracker_insert(t1, *self, vpn, tr);
                        assert(t1.owns(old_tracker.spec_ppn()));
                    }
                    let freed = dealloc_frame(allocator, old_tracker);
                    proof {
                        assert(freed is Ok);
                    }
                    Err(KernelError::VPNAlreadyMapped(vpn))
                },
                None => {
                    proof {
                        Self::lemma_tracker_insert(t1, *self, vpn, tr);
                    }
                    Ok(ppn)
                },
            }
        } else {
            Err(KernelError::InvaidPageTablePerm(flags.bits() as usize))
        }
    }

    /// Removes the mapping of page `vpn` and releases its data frame, returning the
    /// frame. `VPNNotMapped` when the page is not mapped (nothing changes) or when no
    /// data frame is recorded for it (the mapping is removed anyway).
    pub fn unmap(&mut self, vpn: usize, allocator: &mut BTreeSetFrameAllocator) -> (r: Result<
        usize,
        KernelError,
    >)
        requires
            old(self).wf(),
            old(self).frames_in(&*old(allocator)),
        ensures
            final(self).wf(),
            final(self).frames_in(&*final(allocator)),
            Self::frames_kept(&*old(self), &*final(self), &*old(allocator), &*final(allocator)),
            final(self).spec_asid() == old(self).spec_asid(),
            final(self).spec_root_ppn() == old(self).spec_root_ppn(),
            forall|f: usize| #[trigger] final(self).owns(f) ==> old(self).owns(f),
            !old(self)@.contains_key(vpn_key(vpn)) ==> {
                &&& r == Err::<usize, KernelError>(KernelError::VPNNotMapped(vpn))
                &&& *final(self) == *old(self)
                &&& alloc_unchanged(&*old(allocator), &*final(allocator))
            },
            forall|f: usize| #[trigger] old(self).owns(f) && !final(self).owns(f) ==> !final(allocator).handed_out(f),
            old(self)@.contains_key(vpn_key(vpn)) ==> {
                let a = index0(vpn_key(vpn) as int);
                let b = index1(vpn_key(vpn) as int);
                &&& final(self).l2_set() == if pair_used(final(self)@, a, b) {
                    old(self).l2_set()
                } else {
                    old(self).l2_set().remove((a, b))
                }
                &&& final(self).l1_set() == if exists|b2: int| #[trigger] final(self).l2_set().contains((a, b2)) {
                    old(self).l1_set()
                } else {
                    old(self).l1_set().remove(a)
                }
                &&& final(self).mapper_frames() == if pair_used(final(self)@, a, b) {
                    old(self).mapper_frames()
                } else if exists|b2: int| #[trigger] final(self).l2_set().contains((a, b2)) {
                    old(self).mapper_frames().remove(old(self).l2_mapper(a, b))
                } else {
                    old(self).mapper_frames().remove(old(self).l2_mapper(a, b)).remove(old(self).l1_mapper(a))
                }
                &&& final(self)@ == old(self)@.remove(vpn_key(vpn))
                &&& final(self).trackers() == old(self).trackers().remove(vpn)
                &&& old(self).trackers().contains_key(vpn) ==> r == Ok::<usize, KernelError>(
                    old(self)@[vpn_key(vpn)].spec_ppn(),
                ) && !final(allocator).handed_out(old(self).trackers()[vpn].spec_ppn())
                &&& !old(self).trackers().contains_key(vpn) ==> r == Err::<usize, KernelError>(
                    KernelError::VPNNotMapped(vpn),
                )
            },
    {
        let ppn = self.unmap_without_dealloc(vpn, allocator)?;
        let ghost t1 = *self;
        match self.trackers.remove(&vpn) {
            None => {
                proof {
                    assert(self.trackers@ =~= t1.trackers@.remove(vpn));
                    assert(self.trackers@ =~= t1.trackers@);
                    Self::lemma_same_parts(t1, *self);
                }
                Err(KernelError::VPNNotMapped(vpn))
            },
            Some(tracker) => {
                proof {
                    Self::lemma_tracker_remove(t1, *self, vpn);
                    assert(t1.owns(tracker.spec_ppn()));
                }
                let freed = dealloc_frame(allocator, tracker);
                proof {
                    assert(freed is Ok);
                }
                Ok(ppn)
            },
        }
    }

    /// Copies `data` into the data frame of page `vpn` from byte `offset` on;
    /// `VPNNotMapped` when no data frame is recorded for the page.
    pub fn write_bytes(&mut self, vpn: usize, offset: usize, data: &[u8]) -> (r: Result<(), KernelError>)
        requires
            old(self).wf(),
            offset + data@.len() <= MEMORY_PAGE_BYTE_SIZE,
        ensures
            final(self).wf(),
            final(self)@ == old(self)@,
            final(self).spec_asid() == old(self).spec_asid(),
            final(self).spec_root_ppn() == old(self).spec_root_ppn(),
            final(self).l1_set() == old(self).l1_set() && final(self).l2_set() == old(self).l2_set(),
            forall|f: usize| #[trigger] final(self).owns(f) == old(self).owns(f),
            !old(self).trackers().contains_key(vpn) ==> r == Err::<(), KernelError>(
                KernelError::VPNNotMapped(vpn),
            ) && *final(self) == *old(self),
            old(self).trackers().contains_key(vpn) ==> {
                &&& r is Ok
                &&& final(self).trackers().dom() == old(self).trackers().dom()
                &&& forall|w: usize| w != vpn ==> #[trigger] final(self).trackers()[w] == old(self).trackers()[w]
                &&& final(self).trackers()[vpn].spec_ppn() == old(self).trackers()[vpn].spec_ppn()
                &&& final(self).trackers()[vpn]@ == old(self).trackers()[vpn]@.subrange(0, offset as int)
                    + data@ + old(self).trackers()[vpn]@.subrange(
                    offset + data@.len(),
                    MEMORY_PAGE_BYTE_SIZE as int,
                )
            },
    {
        let ghost t0 = *self;
        if !self.trackers.contains_key(&vpn) {
            return Err(KernelError::VPNNotMapped(vpn));
        }
        match self.trackers.remove(&vpn) {
            None => Err(KernelError::VPNNotMapped(vpn)),
            Some(mut tracker) => {
                tracker.write_bytes(offset, data);
                let ghost t1 = *self;
                let ghost tr = tracker;
                self.trackers.insert(vpn, tracker);
                proof {
                    Self::lemma_tracker_remove(t0, t1, vpn);
                    assert(!t1.owns(tr.spec_ppn()));
                    Self::lemma_tracker_insert(t1, *self, vpn, tr);
                    assert(self.trackers@ =~= t0.trackers@.insert(vpn, tr));
                }
                Ok(())
            },
        }
    }
}

/// Mapping a page that is not mapped makes translation give the mapped frame, and
/// unmapping it again leaves the table's entries as they were before.
pub proof fn law_map_then_unmap(pt: &PageTable, vpn: usize, ppn: usize, flags: u8)
    requires
        !pt@.contains_key(vpn_key(vpn)),
        ppn < PPN_LIMIT,
    ensures
        ({
            let mapped = pt@.insert(vpn_key(vpn), spec_pte_new(ppn, flags));
            &&& mapped.contains_key(vpn_key(vpn))
            &&& mapped[vpn_key(vpn)].spec_ppn() == ppn
            &&& mapped.remove(vpn_key(vpn)) == pt@
        }),
{
    lemma_pte_fields(ppn as u64, flags as u64);
    assert(pt@.insert(vpn_key(vpn), spec_pte_new(ppn, flags)).remove(vpn_key(vpn)) =~= pt@);
}


/// The keys of `m`, each once.
fn map_keys<V>(m: &BTreeMap<usize, V>) -> (r: Vec<usize>)
    ensures
        r@.to_set() == m@.dom(),
        r@.no_duplicates(),
{
    broadcast use vstd::std_specs::btree::axiom_spec_keys_iter;
    let mut ks: Vec<usize> = Vec::new();
    for k in it: m.keys()
        invariant
            it.seq() == vstd::std_specs::btree::spec_keys_iter(m).remaining(),
            ks@ == it.seq().take(it.index() as int).unref(),
            it.index() == it.seq().len() ==> ks@ == it.seq().unref(),
    {
        ks.push(*k);
        proof {
            assert(ks@ =~= it.seq().take(it.index() + 1).unref());
            assert(it.seq().take(it.seq().len() as int) =~= it.seq());
        }
    }
    proof {
        assert(ks@.to_set() == m@.dom());
    }
    ks
}

impl PageTable {
    /// Ends the table: every frame it owns (the data frames of its pages, its
    /// mappers and its root) goes back to `allocator`.
    pub fn release(self, allocator: &mut BTreeSetFrameAllocator)
        requires
            self.wf(),
            self.frames_in(&*old(allocator)),
        ensures
            final(allocator).wf(),
            final(allocator).spec_end_ppn() == old(allocator).spec_end_ppn(),
            forall|f: usize| #[trigger] self.owns(f) ==> !final(allocator).handed_out(f),
            forall|f: usize| !self.owns(f) ==> #[trigger] final(allocator).handed_out(f) == old(allocator).handed_out(f),
    {
        let ks = map_keys(&self.trackers);
        let mut i: usize = 0;
        while i < ks.len()
            invariant
                ks@.to_set() == self.trackers@.dom(),
                ks@.no_duplicates(),
                i <= ks@.len(),
                allocator.wf(),
                allocator.spec_end_ppn() == old(allocator).spec_end_ppn(),
                forall|f: usize| !self.owns(f) ==> #[trigger] allocator.handed_out(f) == old(allocator).handed_out(f),
                forall|j: int| 0 <= j < i ==> !#[trigger] allocator.handed_out(self.trackers@[ks@[j]].spec_ppn()),
            decreases ks@.len() - i,
        {
            let k = ks[i];
            proof {
                assert(ks@.to_set().contains(k));
            }
            let ppn = match self.trackers.get(&k) {
                Some(t) => t.ppn(),
                None => {
                    proof {
                        assert(false);
                    }
                    0
                },
            };
            proof {
                assert(self.owns(ppn));
            }
            let _ = allocator.dealloc(ppn);
            i = i + 1;
        }
        let ms = map_keys(&self.mappers);
        let mut i: usize = 0;
        while i < ms.len()
            invariant
                ks@.to_set() == self.trackers@.dom(),
                ms@.to_set() == self.mappers@.dom(),
                i <= ms@.len(),
                allocator.wf(),
                allocator.spec_end_ppn() == old(allocator).spec_end_ppn(),
                forall|f: usize| !self.owns(f) ==> #[trigger] allocator.handed_out(f) == old(allocator).handed_out(f),
                forall|j: int| 0 <= j < ks@.len() ==> !#[trigger] allocator.handed_out(self.trackers@[ks@[j]].spec_ppn()),
                forall|j: int| 0 <= j < i ==> !#[trigger] allocator.handed_out(ms@[j]),
            decreases ms@.len() - i,
        {
            let p = ms[i];
            proof {
                assert(ms@.to_set().contains(p));
                assert(self.owns(p));
            }
            let _ = allocator.dealloc(p);
            i = i + 1;
        }
        let root = self.root.ppn();
        proof {
            assert(self.owns(root));
        }
        let _ = allocator.dealloc(root);
        proof {
            assert forall|f: usize| #[trigger] self.owns(f) implies !allocator.handed_out(f) by {
                if f != root {
                    if self.mappers@.contains_key(f) {
                        assert(ms@.to_set().contains(f));
                        let j = ms@.index_of(f);
                        assert(!allocator.handed_out(ms@[j]));
                    } else {
                        let v = choose|v: usize| #[trigger] self.trackers@.contains_key(v) && self.trackers@[v].spec_ppn() == f;
                        assert(ks@.to_set().contains(v));
                        let j = ks@.index_of(v);
                        assert(!allocator.handed_out(self.trackers@[ks@[j]].spec_ppn()));
                    }
                }
            }
        }
    }
}

} // verus!
