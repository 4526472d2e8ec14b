//! Address spaces: a page table, the areas mapped in it, and the allocator of their
//! virtual page ranges.
use vstd::prelude::*;
use std::collections::{BTreeMap, BTreeSet};
use vstd::std_specs::iter::IteratorSpec;
use crate::allocator::{BTreeSetFrameAllocator, LinkedListPageRangeAllocator};
use crate::area::{can_map, key_in_range, range_frames, range_free, range_sets, Area, AreaMapping};
use crate::configs::{
    KERNEL_GUARD_PAGE_COUNT, KERNEL_TASK_STACK_BYTE_SIZE, MAX_VIRTUAL_ADDRESS, MEMORY_PAGE_BYTE_SIZE,
    TRAMPOLINE_VIRTUAL_BASE_ADDR, TRAP_CTX_VIRTUAL_BASE_ADDR, USER_TASK_STACK_BYTE_SIZE,
};
use crate::buffer::push_char;
use crate::error::KernelError;
use crate::page_table::{
    cal_base_va_with, frames_for, get_va_offset, get_vpn_with, spec_base_va, spec_offset_of, spec_vpn_of, vpn_key,
    PageTable, PageTableEntry, PageTableFlags, ASID_LIMIT, PPN_LIMIT, VPN_LIMIT,
};

verus! {

broadcast use vstd::laws_cmp::group_laws_cmp;

/// The highest virtual page number.
pub open spec fn spec_max_vpn() -> usize {
    spec_vpn_of(MAX_VIRTUAL_ADDRESS)
}

/// The virtual page of the trampoline: the last page.
pub open spec fn spec_trampoline_vpn() -> usize {
    spec_vpn_of(TRAMPOLINE_VIRTUAL_BASE_ADDR)
}

/// The highest virtual page number.
pub fn max_virtual_page_number() -> (r: usize)
    ensures
        r == spec_max_vpn(),
        r < VPN_LIMIT,
{
    get_vpn_with(MAX_VIRTUAL_ADDRESS)
}

/// The trampoline page is the highest virtual page.
pub proof fn lemma_trampoline_is_max()
    ensures
        spec_trampoline_vpn() == spec_max_vpn(),
        spec_max_vpn() < VPN_LIMIT,
{
    let r = spec_trampoline_vpn();
    let m = spec_max_vpn();
    crate::page_table::lemma_vpn_of(TRAMPOLINE_VIRTUAL_BASE_ADDR);
    crate::page_table::lemma_vpn_of(MAX_VIRTUAL_ADDRESS);
    assert(r == m) by (nonlinear_arith)
        requires
            r as int == ((usize::MAX - 4095) as int / 4096) % 0x800_0000,
            m as int == (usize::MAX as int / 4096) % 0x800_0000,
            usize::MAX == 0xffff_ffff || usize::MAX == 0xffff_ffff_ffff_ffff,
    ;
}

/// The virtual page of the trampoline.
pub fn trampoline_virtual_page_number() -> (r: usize)
    ensures
        r == spec_trampoline_vpn(),
        r == spec_max_vpn(),
{
    let r = get_vpn_with(TRAMPOLINE_VIRTUAL_BASE_ADDR);
    let m = get_vpn_with(MAX_VIRTUAL_ADDRESS);
    proof {
        assert(r == m) by (nonlinear_arith)
            requires
                r as int == ((usize::MAX - 4095) as int / 4096) % 0x800_0000,
                m as int == (usize::MAX as int / 4096) % 0x800_0000,
                usize::MAX == 0xffff_ffff || usize::MAX == 0xffff_ffff_ffff_ffff,
        ;
    }
    r
}

/// The virtual page of the trap context of the first task: the page below the
/// trampoline.
pub fn trap_context_virtual_page_number() -> (r: usize)
    ensures
        r == spec_vpn_of(TRAP_CTX_VIRTUAL_BASE_ADDR),
        r == spec_trampoline_vpn() - 1,
{
    let r = get_vpn_with(TRAP_CTX_VIRTUAL_BASE_ADDR);
    let t = trampoline_virtual_page_number();
    proof {
        crate::page_table::lemma_vpn_of(TRAMPOLINE_VIRTUAL_BASE_ADDR);
        assert(r + 1 == t) by (nonlinear_arith)
            requires
                r as int == ((usize::MAX - 8191) as int / 4096) % 0x800_0000,
                t as int == ((usize::MAX - 4095) as int / 4096) % 0x800_0000,
                usize::MAX == 0xffff_ffff || usize::MAX == 0xffff_ffff_ffff_ffff,
        ;
    }
    r
}

/// A page number of an address is below the number of pages.
pub proof fn lemma_vpn_bound(va: usize)
    ensures
        spec_vpn_of(va) <= spec_max_vpn(),
        spec_vpn_of(va) < VPN_LIMIT,
        vpn_key(spec_vpn_of(va)) == spec_vpn_of(va),
{
    crate::page_table::lemma_vpn_of(va);
    crate::page_table::lemma_vpn_of(usize::MAX);
    let q = va as int / 4096;
    let m = usize::MAX as int / 4096;
    assert(q <= m) by (nonlinear_arith)
        requires
            va <= usize::MAX,
            q == va as int / 4096,
            m == usize::MAX as int / 4096,
    ;
    if usize::MAX == 0xffff_ffff {
        assert(m < 0x800_0000);
        vstd::arithmetic::div_mod::lemma_small_mod(q as nat, 0x800_0000nat);
        vstd::arithmetic::div_mod::lemma_small_mod(m as nat, 0x800_0000nat);
    } else {
        assert(m % 0x800_0000 == 0x7ff_ffff);
    }
    vstd::arithmetic::div_mod::lemma_small_mod(spec_vpn_of(va) as nat, 0x800_0000nat);
}

/// The largest address space id.
pub const MAX_TASK_ID: usize = 0xffff;

/// Rounds virtual address `va` up to a page number.
pub fn vpn_ceil(va: usize) -> (r: usize)
    requires
        va + MEMORY_PAGE_BYTE_SIZE - 1 <= usize::MAX,
    ensures
        r == spec_vpn_of((va + MEMORY_PAGE_BYTE_SIZE - 1) as usize),
        r as int == ((va + 4095) / 4096) % 0x800_0000,
{
    get_vpn_with(va + (MEMORY_PAGE_BYTE_SIZE - 1))
}

/// Rounds virtual address `va` down to a page number.
pub fn vpn_floor(va: usize) -> (r: usize)
    ensures
        r == spec_vpn_of(va),
        r as int == (va / 4096) % 0x800_0000,
{
    get_vpn_with(va)
}

/// The pages of the `kid`-th kernel stack.
pub open spec fn spec_kernel_stack_range(kid: usize) -> (usize, usize) {
    ((spec_trampoline_vpn() - 3 * kid - 2) as usize, (spec_trampoline_vpn() - 3 * kid) as usize)
}

/// The first page of the `kid`-th kernel stack below the trampoline and the page
/// after its last one; each stack has two pages and a guard page below it.
pub fn get_kernel_task_stack_vpn_range(kid: usize) -> (r: (usize, usize))
    requires
        3 * kid + 2 <= spec_trampoline_vpn(),
    ensures
        r == spec_kernel_stack_range(kid),
{
    let max_vpn = trampoline_virtual_page_number();
    let stack_page_count = vpn_ceil(KERNEL_TASK_STACK_BYTE_SIZE);
    assert(stack_page_count == 2);
    let end_vpn = max_vpn - (stack_page_count + KERNEL_GUARD_PAGE_COUNT) * kid;
    let start_vpn = end_vpn - stack_page_count;
    (start_vpn, end_vpn)
}

/// The top virtual address of the `kid`-th kernel stack.
pub fn get_kernel_task_stack_top_va(kid: usize) -> (r: usize)
    requires
        3 * kid + 2 <= spec_trampoline_vpn(),
    ensures
        r == spec_base_va((spec_trampoline_vpn() - 3 * kid) as usize),
{
    let (_, end_vpn) = get_kernel_task_stack_vpn_range(kid);
    cal_base_va_with(end_vpn)
}

/// The addresses that bound the user stack of task `tid` above the program ending
/// at `end_va`: each stack has a guard page below it.
pub open spec fn user_stack_start_va(end_va: usize, tid: usize) -> int {
    end_va + (tid + 1) * KERNEL_GUARD_PAGE_COUNT * MEMORY_PAGE_BYTE_SIZE + tid * USER_TASK_STACK_BYTE_SIZE
}

/// The pages of the user stack of task `tid` above a program ending at `end_va`.
pub open spec fn spec_user_stack_range(end_va: usize, tid: usize) -> (usize, usize) {
    (
        (((user_stack_start_va(end_va, tid) + 4095) / 4096) % 0x800_0000) as usize,
        (((user_stack_start_va(end_va, tid) + USER_TASK_STACK_BYTE_SIZE + 4095) / 4096) % 0x800_0000) as usize,
    )
}

/// The user stack of task `tid` above a program ending at `end_va` fits below the
/// end of the address space.
pub open spec fn user_stack_fits(end_va: usize, tid: usize) -> bool {
    user_stack_start_va(end_va, tid) + USER_TASK_STACK_BYTE_SIZE + MEMORY_PAGE_BYTE_SIZE - 1 <= usize::MAX
}

/// Each user stack has eight pages, the first stack starts one guard page above
/// the page where the program ends, and each next stack one guard page above the
/// one before.
pub proof fn law_user_stacks_guarded(end_va: usize, tid: usize)
    requires
        tid < usize::MAX,
        user_stack_start_va(end_va, (tid + 1) as usize) + USER_TASK_STACK_BYTE_SIZE + MEMORY_PAGE_BYTE_SIZE
            <= 0x80_0000_0000,
    ensures
        spec_user_stack_range(end_va, tid).1 - spec_user_stack_range(end_va, tid).0 == 8,
        spec_user_stack_range(end_va, tid).0 == (end_va + 4095) / 4096 + 1 + 9 * tid,
        spec_user_stack_range(end_va, (tid + 1) as usize).0 == spec_user_stack_range(end_va, tid).1 + 1,
{
    let x = end_va + 4095;
    let c = x / 4096;
    let t = tid as int;
    assert(user_stack_start_va(end_va, tid) + 4095 == x + 4096 * (1 + 9 * t)) by (nonlinear_arith)
        requires
            user_stack_start_va(end_va, tid) == end_va + (t + 1) * 4096 + t * 32768,
            x == end_va + 4095,
    ;
    assert(user_stack_start_va(end_va, (tid + 1) as usize) + 4095 == x + 4096 * (1 + 9 * (t + 1)))
        by (nonlinear_arith)
        requires
            user_stack_start_va(end_va, (tid + 1) as usize) == end_va + (t + 2) * 4096 + (t + 1) * 32768,
            x == end_va + 4095,
    ;
    assert forall|m: int| 0 <= m ==> #[trigger] ((x + 4096 * m) / 4096) == c + m by {
        if 0 <= m {
            assert((x + 4096 * m) / 4096 == c + m) by (nonlinear_arith)
                requires
                    c == x / 4096,
                    x >= 0,
                    m >= 0,
            ;
        }
    }
    assert((x + 4096 * (1 + 9 * t)) / 4096 == c + 1 + 9 * t);
    assert((x + 4096 * (1 + 9 * t) + 32768) / 4096 == c + 9 + 9 * t) by {
        assert(x + 4096 * (1 + 9 * t) + 32768 == x + 4096 * (9 + 9 * t));
    }
    assert((x + 4096 * (1 + 9 * (t + 1))) / 4096 == c + 10 + 9 * t) by {
        assert(x + 4096 * (1 + 9 * (t + 1)) == x + 4096 * (10 + 9 * t));
    }
    assert(c + 10 + 9 * t < 0x800_0000) by (nonlinear_arith)
        requires
            x + 4096 * (1 + 9 * (t + 1)) + 32768 <= 0x80_0000_0000 + 4095,
            c == x / 4096,
            x >= 0,
            t >= 0,
    ;
}

/// The pages of the user stack of task `tid` above a program ending at `end_va`.
pub fn get_user_task_stack_vpn_range(end_va: usize, tid: usize) -> (r: (usize, usize))
    requires
        user_stack_fits(end_va, tid),
    ensures
        r == spec_user_stack_range(end_va, tid),
{
    assert((tid + 1) * 4096 + tid * 32768 == tid * 36864 + 4096) by (nonlinear_arith);
    let guard_size = (tid + 1) * KERNEL_GUARD_PAGE_COUNT * MEMORY_PAGE_BYTE_SIZE;
    let stack_size = tid * USER_TASK_STACK_BYTE_SIZE;
    let start_va = end_va + guard_size + stack_size;
    let end_va = start_va + USER_TASK_STACK_BYTE_SIZE;
    (vpn_ceil(start_va), vpn_ceil(end_va))
}

/// The top virtual address of the user stack of task `tid`.
pub fn get_user_task_stack_top_va(end_va: usize, tid: usize) -> (r: usize)
    requires
        user_stack_fits(end_va, tid),
    ensures
        r == spec_base_va(spec_user_stack_range(end_va, tid).1),
{
    let (_, end_vpn) = get_user_task_stack_vpn_range(end_va, tid);
    cal_base_va_with(end_vpn)
}

/// The page of the trap context of task `tid`.
pub open spec fn spec_trap_ctx_range(tid: usize) -> (usize, usize) {
    (
        (((TRAP_CTX_VIRTUAL_BASE_ADDR - 4096 * tid + 4095) / 4096) % 0x800_0000) as usize,
        (((TRAP_CTX_VIRTUAL_BASE_ADDR - 4096 * tid + 4096 + 4095) / 4096) % 0x800_0000) as usize,
    )
}

/// The page of the trap context of task `tid`, counted down from the page below
/// the trampoline.
pub fn get_task_trap_ctx_vpn_range(tid: usize) -> (r: (usize, usize))
    requires
        MEMORY_PAGE_BYTE_SIZE * tid <= TRAP_CTX_VIRTUAL_BASE_ADDR,
    ensures
        r == spec_trap_ctx_range(tid),
{
    let offset = MEMORY_PAGE_BYTE_SIZE * tid;
    let start_va = TRAP_CTX_VIRTUAL_BASE_ADDR - offset;
    let end_va = start_va + MEMORY_PAGE_BYTE_SIZE;
    (vpn_ceil(start_va), vpn_ceil(end_va))
}

} // verus!

verus! {

/// A virtual address space: a page table, the areas mapped in it keyed by their
/// page range, and the allocator of the ranges.
pub struct Space {
    area_set: BTreeMap<(usize, usize), Area>,
    page_table: PageTable,
    page_range_allocator: LinkedListPageRangeAllocator,
}

/// The area stored under range `r` in `s`: it covers `r`, is mapped in `pt`, its
/// pages are allocated in `ra`, an identically mapped area has no data frames and
/// maps valid frame numbers, and a framed one has permissions.
pub open spec fn area_ok(
    areas: Map<(usize, usize), Area>,
    pt: &PageTable,
    ra: &LinkedListPageRangeAllocator,
    r: (usize, usize),
) -> bool {
    let a = areas[r];
    &&& a.spec_start() == r.0
    &&& a.spec_end() == r.1
    &&& a.mapped_in(pt)
    &&& forall|v: usize| r.0 <= v < r.1 ==> #[trigger] ra@.contains(v)
    &&& a.spec_mapping() == AreaMapping::Identical ==> r.1 <= PPN_LIMIT && forall|v: usize|
        r.0 <= v < r.1 ==> !#[trigger] pt.trackers().contains_key(v)
    &&& a.spec_mapping() == AreaMapping::Framed ==> a.spec_flags().bits != 0
}

/// The ranges `r1` and `r2` do not overlap.
pub open spec fn disjoint(r1: (usize, usize), r2: (usize, usize)) -> bool {
    r1.1 <= r2.0 || r2.1 <= r1.0
}

/// The state of an address space: areas as stored, their ranges disjoint, and every
/// mapped page and data frame belonging to an allocated range (or the trampoline).
pub open spec fn space_wf(
    areas: Map<(usize, usize), Area>,
    pt: &PageTable,
    ra: &LinkedListPageRangeAllocator,
) -> bool {
    &&& pt.wf()
    &&& ra.wf()
    &&& ra.start() == 0
    &&& ra.end() == spec_max_vpn() + 1
    &&& spec_max_vpn() < VPN_LIMIT
    &&& forall|r: (usize, usize)| #[trigger] areas.contains_key(r) ==> area_ok(areas, pt, ra, r)
    &&& forall|r1: (usize, usize), r2: (usize, usize)|
        #[trigger] areas.contains_key(r1) && #[trigger] areas.contains_key(r2) && r1 != r2 ==> disjoint(r1, r2)
    &&& forall|k: usize| #[trigger] pt@.contains_key(k) ==> k == spec_trampoline_vpn() || ra@.contains(k)
    &&& forall|v: usize| #[trigger] pt.trackers().contains_key(v) ==> ra@.contains(v)
}

/// The frames that the page table of `s` owns were free in `before`, and the
/// allocator `now` hands out every other frame as `before` did: the space took
/// exactly its own frames.
pub open spec fn frames_since(s: &Space, before: &BTreeSetFrameAllocator, now: &BTreeSetFrameAllocator) -> bool {
    &&& forall|f: usize| #[trigger] s.spec_page_table().owns(f) ==> !before.handed_out(f)
    &&& forall|f: usize| !s.spec_page_table().owns(f) ==> #[trigger] now.handed_out(f) == before.handed_out(f)
}

/// A change of the space from `s0` to `s1` that keeps the frames it owned, takes
/// only free frames and leaves the others alone keeps it owning exactly the frames
/// it took since `before`.
pub proof fn lemma_frames_since_step(
    s0: &Space,
    s1: &Space,
    before: &BTreeSetFrameAllocator,
    a0: &BTreeSetFrameAllocator,
    a1: &BTreeSetFrameAllocator,
)
    requires
        frames_since(s0, before, a0),
        forall|f: usize| #[trigger] s0.spec_page_table().owns(f) ==> s1.spec_page_table().owns(f),
        forall|f: usize| #[trigger] s1.spec_page_table().owns(f) && !s0.spec_page_table().owns(f) ==> !a0.handed_out(f),
        crate::page_table::PageTable::frames_kept(&s0.spec_page_table(), &s1.spec_page_table(), a0, a1),
    ensures
        frames_since(s1, before, a1),
{
    assert forall|f: usize| #[trigger] s1.spec_page_table().owns(f) implies !before.handed_out(f) by {
        if !s0.spec_page_table().owns(f) {
            assert(a0.handed_out(f) == before.handed_out(f));
        }
    }
    assert forall|f: usize| !s1.spec_page_table().owns(f) implies #[trigger] a1.handed_out(f) == before.handed_out(f) by {
        assert(!s0.spec_page_table().owns(f));
        assert(a1.handed_out(f) == a0.handed_out(f));
    }
}

impl Space {
    /// The areas by range.
    pub closed spec fn areas(&self) -> Map<(usize, usize), Area> {
        self.area_set@
    }

    /// The page table.
    pub closed spec fn spec_page_table(&self) -> PageTable {
        self.page_table
    }

    /// The allocator of the page ranges.
    pub closed spec fn spec_allocator(&self) -> LinkedListPageRangeAllocator {
        self.page_range_allocator
    }

    /// The space is well formed.
    pub open spec fn wf(&self) -> bool {
        space_wf(self.areas(), &self.spec_page_table(), &self.spec_allocator())
    }

    /// The space is well formed and its page table lives in `frames`.
    pub open spec fn wf_in(&self, frames: &BTreeSetFrameAllocator) -> bool {
        &&& self.wf()
        &&& self.spec_page_table().frames_in(frames)
    }

    /// A space with no area, whose page table is an empty root mapper in a new frame
    /// of `frames`; `FrameExhausted` when there is none.
    pub fn new_bare(asid: usize, frames: &mut BTreeSetFrameAllocator) -> (r: Result<Self, KernelError>)
        requires
            old(frames).wf(),
            old(frames).spec_end_ppn() <= PPN_LIMIT,
        ensures
            final(frames).wf(),
            final(frames).spec_end_ppn() == old(frames).spec_end_ppn(),
            r is Err <==> old(frames).available() == 0,
            r is Err ==> r == Err::<Self, KernelError>(KernelError::FrameExhausted) && forall|f: usize|
                #[trigger] final(frames).handed_out(f) == old(frames).handed_out(f),
            r is Ok ==> {
                let s = r->Ok_0;
                &&& s.wf_in(&*final(frames))
                &&& s.areas() == Map::<(usize, usize), Area>::empty()
                &&& s.spec_page_table()@ == Map::<usize, PageTableEntry>::empty()
                &&& s.spec_page_table().trackers().is_empty()
                &&& s.spec_page_table().l1_set() == Set::<int>::empty()
                &&& s.spec_page_table().l2_set() == Set::<(int, int)>::empty()
                &&& s.spec_page_table().spec_asid() == asid
                &&& s.spec_allocator()@ == Set::<usize>::empty()
                &&& final(frames).available() == old(frames).available() - 1
                &&& frames_since(&s, &*old(frames), &*final(frames))
            },
    {
        let page_table = PageTable::new(asid, frames)?;
        let max_vpn = max_virtual_page_number();
        let page_range_allocator = LinkedListPageRangeAllocator::new(0, max_vpn + 1);
        let s = Self { page_table, area_set: BTreeMap::new(), page_range_allocator };
        proof {
            assert(s.areas() =~= Map::<(usize, usize), Area>::empty());
            assert(s.spec_page_table().trackers() =~= Map::<usize, crate::frame::FrameTracker>::empty());
        }
        Ok(s)
    }

    /// The area of the range `[start_vpn, end_vpn)`; `AreaNotExists` when there is
    /// none.
    pub fn get_area(&self, start_vpn: usize, end_vpn: usize) -> (r: Result<&Area, KernelError>)
        ensures
            self.areas().contains_key((start_vpn, end_vpn)) ==> r == Ok::<&Area, KernelError>(
                &self.areas()[(start_vpn, end_vpn)],
            ),
            !self.areas().contains_key((start_vpn, end_vpn)) ==> r == Err::<&Area, KernelError>(
                KernelError::AreaNotExists(start_vpn, end_vpn),
            ),
    {
        match self.area_set.get(&(start_vpn, end_vpn)) {
            Some(a) => Ok(a),
            None => Err(KernelError::AreaNotExists(start_vpn, end_vpn)),
        }
    }

    /// The token that makes the MMU use the space's page table.
    pub fn mmu_token(&self, frames: &BTreeSetFrameAllocator) -> (r: usize)
        requires
            self.wf_in(frames),
            self.spec_page_table().spec_asid() < ASID_LIMIT,
        ensures
            r == crate::page_table::spec_mmu_token(
                self.spec_page_table().spec_asid(),
                self.spec_page_table().spec_root_ppn(),
            ) as usize,
    {
        proof {
            self.page_table.lemma_root_owned();
        }
        self.page_table.mmu_token()
    }

    /// The physical address of virtual address `va`, if its page is mapped.
    pub fn translate_pa(&self, va: usize) -> (r: Option<usize>)
        requires
            self.wf(),
            self.spec_page_table()@.contains_key(vpn_key(spec_vpn_of(va))) ==> self.spec_page_table()@[vpn_key(
                spec_vpn_of(va),
            )].spec_ppn() * MEMORY_PAGE_BYTE_SIZE + MEMORY_PAGE_BYTE_SIZE <= usize::MAX,
        ensures
            r == if self.spec_page_table()@.contains_key(vpn_key(spec_vpn_of(va))) {
                Some(
                    (self.spec_page_table()@[vpn_key(spec_vpn_of(va))].spec_ppn() * MEMORY_PAGE_BYTE_SIZE
                        + spec_offset_of(va)) as usize,
                )
            } else {
                None::<usize>
            },
    {
        let vpn = vpn_floor(va);
        let offset = get_va_offset(va);
        let ppn = self.page_table.translate_ppn_with(vpn)?;
        Some(ppn * MEMORY_PAGE_BYTE_SIZE + offset)
    }
}

} // verus!

verus! {

/// Pages below `VPN_LIMIT` are their own keys, and a key in a range of such pages
/// is one of its pages.
proof fn lemma_key_of_small(k: usize, s: usize, e: usize)
    requires
        e <= VPN_LIMIT,
    ensures
        key_in_range(k, s, e) <==> s <= k < e,
{
    if key_in_range(k, s, e) {
        let u = choose|u: usize| s <= u < e && #[trigger] vpn_key(u) == k;
        assert(vpn_key(u) == u);
    }
    if s <= k < e {
        assert(vpn_key(k) == k);
    }
}

/// An area whose pages are all mapped as it says is mapped.
proof fn lemma_mapped_in(b: Area, pt: PageTable)
    requires
        b.spec_start() < b.spec_end(),
        b.spec_end() - b.spec_start() <= VPN_LIMIT,
        forall|v: usize|
            b.spec_start() <= v < b.spec_end() ==> {
                &&& #[trigger] pt@.contains_key(vpn_key(v))
                &&& pt@[vpn_key(v)] == b.entry_of(&pt, v)
                &&& b.spec_mapping() == AreaMapping::Framed ==> pt.trackers().contains_key(v)
            },
    ensures
        b.mapped_in(&pt),
{
}

/// An area stays mapped in a table that keeps the entries of its pages and the
/// frames of its data.
proof fn lemma_area_kept(b: Area, pt0: PageTable, pt1: PageTable)
    requires
        b.mapped_in(&pt0),
        forall|v: usize|
            b.spec_start() <= v < b.spec_end() ==> #[trigger] pt1@.contains_key(vpn_key(v)) == pt0@.contains_key(
                vpn_key(v),
            ),
        forall|v: usize| b.spec_start() <= v < b.spec_end() ==> #[trigger] pt1@[vpn_key(v)] == pt0@[vpn_key(v)],
        b.spec_mapping() == AreaMapping::Framed ==> forall|v: usize|
            b.spec_start() <= v < b.spec_end() ==> #[trigger] pt1.trackers().contains_key(v)
                == pt0.trackers().contains_key(v),
        b.spec_mapping() == AreaMapping::Framed ==> forall|v: usize|
            b.spec_start() <= v < b.spec_end() ==> #[trigger] pt1.trackers()[v].spec_ppn()
                == pt0.trackers()[v].spec_ppn(),
    ensures
        b.mapped_in(&pt1),
{
    assert forall|v: usize| b.spec_start() <= v < b.spec_end() implies #[trigger] pt1@.contains_key(vpn_key(v)) by {
        assert(pt0@.contains_key(vpn_key(v)));
    }
    assert forall|v: usize| b.spec_start() <= v < b.spec_end() implies #[trigger] b.entry_of(&pt1, v) == pt1@[vpn_key(v)] by {
        assert(pt0@.contains_key(vpn_key(v)));
        assert(pt1@[vpn_key(v)] == pt0@[vpn_key(v)]);
        if b.spec_mapping() == AreaMapping::Framed {
            assert(pt1.trackers()[v].spec_ppn() == pt0.trackers()[v].spec_ppn());
        }
    }
    if b.spec_mapping() == AreaMapping::Framed {
        assert forall|v: usize| b.spec_start() <= v < b.spec_end() implies #[trigger] pt1.trackers().contains_key(v) by {
            assert(pt0@.contains_key(vpn_key(v)));
        }
    }
}

/// Adding an area `a` whose range `[s, e)` was free keeps the space well formed.
#[verifier::spinoff_prover]
proof fn lemma_insert_area(
    areas0: Map<(usize, usize), Area>,
    pt0: PageTable,
    ra0: LinkedListPageRangeAllocator,
    pt1: PageTable,
    ra1: LinkedListPageRangeAllocator,
    a: Area,
)
    requires
        space_wf(areas0, &pt0, &ra0),
        range_free(&ra0, a.spec_start(), a.spec_end()),
        ra1.wf(),
        ra1.start() == ra0.start(),
        ra1.end() == ra0.end(),
        ra1@ == ra0@.union(Set::new(|v: usize| a.spec_start() <= v < a.spec_end())),
        pt1.wf(),
        a.mapped_in(&pt1),
        forall|k: usize| !key_in_range(k, a.spec_start(), a.spec_end()) ==> (#[trigger] pt1@.contains_key(k)
            == pt0@.contains_key(k) && (pt0@.contains_key(k) ==> pt1@[k] == pt0@[k])),
        forall|w: usize| !(a.spec_start() <= w < a.spec_end()) ==> (#[trigger] pt1.trackers().contains_key(w)
            == pt0.trackers().contains_key(w) && (pt0.trackers().contains_key(w) ==> pt1.trackers()[w]
            == pt0.trackers()[w])),
        a.spec_mapping() == AreaMapping::Identical ==> pt1.trackers() == pt0.trackers() && a.spec_end()
            <= PPN_LIMIT,
        a.spec_mapping() == AreaMapping::Framed ==> a.spec_flags().bits != 0,
    ensures
        !areas0.contains_key((a.spec_start(), a.spec_end())),
        space_wf(areas0.insert((a.spec_start(), a.spec_end()), a), &pt1, &ra1),
{
    let s = a.spec_start();
    let e = a.spec_end();
    let areas1 = areas0.insert((s, e), a);
    ra0.lemma_view_bounds();
    if areas0.contains_key((s, e)) {
        assert(ra0@.contains(s));
    }
    assert forall|r: (usize, usize)| #[trigger] areas0.contains_key(r) implies disjoint(r, (s, e)) by {
        if !disjoint(r, (s, e)) {
            let v = if r.0 <= s { s } else { r.0 };
            assert(ra0@.contains(v));
        }
    }
    assert forall|r: (usize, usize)| #[trigger] areas1.contains_key(r) implies area_ok(areas1, &pt1, &ra1, r) by {
        if r == (s, e) {
            assert forall|v: usize| r.0 <= v < r.1 implies #[trigger] ra1@.contains(v) by {}
            if a.spec_mapping() == AreaMapping::Identical {
                assert forall|v: usize| r.0 <= v < r.1 implies !#[trigger] pt1.trackers().contains_key(v) by {
                    if pt0.trackers().contains_key(v) {
                        assert(ra0@.contains(v));
                    }
                }
            }
        } else {
            let b = areas0[r];
            assert(area_ok(areas0, &pt0, &ra0, r));
            assert(disjoint(r, (s, e)));
            assert forall|v: usize| b.spec_start() <= v < b.spec_end() implies {
                &&& #[trigger] pt1@.contains_key(vpn_key(v)) == pt0@.contains_key(vpn_key(v))
                &&& pt1@[vpn_key(v)] == pt0@[vpn_key(v)]
                &&& b.spec_mapping() == AreaMapping::Framed ==> pt1.trackers().contains_key(v)
                    == pt0.trackers().contains_key(v) && pt1.trackers()[v].spec_ppn() == pt0.trackers()[v].spec_ppn()
            } by {
                assert(pt0@.contains_key(vpn_key(v)));
                assert(ra0@.contains(v));
                lemma_key_of_small(vpn_key(v), s, e);
                assert(vpn_key(v) == v);
                assert(!(s <= v < e));
                assert(!key_in_range(vpn_key(v), s, e));
                assert(pt1@.contains_key(vpn_key(v)) == pt0@.contains_key(vpn_key(v)));
                assert(pt1@[vpn_key(v)] == pt0@[vpn_key(v)]);
                assert(pt1.trackers().contains_key(v) == pt0.trackers().contains_key(v));
                if pt0.trackers().contains_key(v) {
                    assert(pt1.trackers()[v] == pt0.trackers()[v]);
                }
            }
            assert forall|v: usize| b.spec_start() <= v < b.spec_end() implies #[trigger] pt1@[vpn_key(v)] == pt0@[vpn_key(v)] by {
                assert(pt1@.contains_key(vpn_key(v)) == pt0@.contains_key(vpn_key(v)));
            }
            if b.spec_mapping() == AreaMapping::Framed {
                assert forall|v: usize| b.spec_start() <= v < b.spec_end() implies #[trigger] pt1.trackers().contains_key(v)
                    == pt0.trackers().contains_key(v) by {
                    assert(pt1@.contains_key(vpn_key(v)) == pt0@.contains_key(vpn_key(v)));
                }
                assert forall|v: usize| b.spec_start() <= v < b.spec_end() implies #[trigger] pt1.trackers()[v].spec_ppn()
                    == pt0.trackers()[v].spec_ppn() by {
                    assert(pt1@.contains_key(vpn_key(v)) == pt0@.contains_key(vpn_key(v)));
                }
            }
            lemma_area_kept(b, pt0, pt1);
            assert forall|v: usize| r.0 <= v < r.1 implies #[trigger] ra1@.contains(v) by {
                assert(ra0@.contains(v));
            }
            if b.spec_mapping() == AreaMapping::Identical {
                assert forall|v: usize| r.0 <= v < r.1 implies !#[trigger] pt1.trackers().contains_key(v) by {
                    assert(!pt0.trackers().contains_key(v));
                    assert(ra0@.contains(v));
                }
            }
        }
    }
    assert forall|k: usize| #[trigger] pt1@.contains_key(k) implies k == spec_trampoline_vpn() || ra1@.contains(k) by {
        lemma_key_of_small(k, s, e);
    }
    assert forall|v: usize| #[trigger] pt1.trackers().contains_key(v) implies ra1@.contains(v) by {}
}

/// Removing the area at `r`, whose pages were unmapped and range released, keeps the
/// space well formed.
#[verifier::spinoff_prover]
proof fn lemma_remove_area(
    areas0: Map<(usize, usize), Area>,
    pt0: PageTable,
    ra0: LinkedListPageRangeAllocator,
    pt1: PageTable,
    ra1: LinkedListPageRangeAllocator,
    r: (usize, usize),
)
    requires
        space_wf(areas0, &pt0, &ra0),
        areas0.contains_key(r),
        ra1.wf(),
        ra1.start() == ra0.start(),
        ra1.end() == ra0.end(),
        ra1@ == ra0@.difference(Set::new(|v: usize| r.0 <= v < r.1)),
        pt1.wf(),
        forall|k: usize| #[trigger] pt1@.contains_key(k) == (pt0@.contains_key(k) && !key_in_range(k, r.0, r.1)),
        forall|k: usize| #[trigger] pt1@.contains_key(k) ==> pt1@[k] == pt0@[k],
        areas0[r].spec_mapping() == AreaMapping::Identical ==> pt1.trackers() == pt0.trackers(),
        areas0[r].spec_mapping() == AreaMapping::Framed ==> {
            &&& forall|w: usize| #[trigger] pt1.trackers().contains_key(w) == (pt0.trackers().contains_key(w)
                && !(r.0 <= w < r.1))
            &&& forall|w: usize| #[trigger] pt1.trackers().contains_key(w) ==> pt1.trackers()[w]
                == pt0.trackers()[w]
        },
    ensures
        space_wf(areas0.remove(r), &pt1, &ra1),
{
    let areas1 = areas0.remove(r);
    assert(area_ok(areas0, &pt0, &ra0, r));
    ra0.lemma_view_bounds();
    assert(ra0@.contains((r.1 - 1) as usize));
    assert forall|q: (usize, usize)| #[trigger] areas1.contains_key(q) implies area_ok(areas1, &pt1, &ra1, q) by {
        let b = areas0[q];
        assert(area_ok(areas0, &pt0, &ra0, q));
        assert(disjoint(q, r));
        assert forall|v: usize| #![trigger pt1@.contains_key(vpn_key(v))] b.spec_start() <= v < b.spec_end() implies {
            &&& pt1@.contains_key(vpn_key(v))
            &&& pt1@[vpn_key(v)] == b.entry_of(&pt1, v)
            &&& b.spec_mapping() == AreaMapping::Framed ==> pt1.trackers().contains_key(v)
        } by {
            assert(pt0@.contains_key(vpn_key(v)));
            assert(ra0@.contains(v));
            lemma_key_of_small(vpn_key(v), r.0, r.1);
            assert(vpn_key(v) == v);
            assert(!(r.0 <= v < r.1));
            assert(pt1@.contains_key(v) == (pt0@.contains_key(v) && !key_in_range(v, r.0, r.1)));
            if b.spec_mapping() == AreaMapping::Framed {
                assert(pt0.trackers().contains_key(v));
            }
            if areas0[r].spec_mapping() == AreaMapping::Framed {
                assert(pt1.trackers().contains_key(v) == (pt0.trackers().contains_key(v) && !(r.0 <= v < r.1)));
                if pt1.trackers().contains_key(v) {
                    assert(pt1.trackers()[v] == pt0.trackers()[v]);
                }
            }
            assert(b.entry_of(&pt1, v) == b.entry_of(&pt0, v));
        }
        lemma_mapped_in(b, pt1);
        assert forall|v: usize| q.0 <= v < q.1 implies #[trigger] ra1@.contains(v) by {
            assert(ra0@.contains(v));
        }
        if b.spec_mapping() == AreaMapping::Identical {
            assert forall|v: usize| q.0 <= v < q.1 implies !#[trigger] pt1.trackers().contains_key(v) by {
                assert(!pt0.trackers().contains_key(v));
            }
        }
    }
    assert forall|k: usize| #[trigger] pt1@.contains_key(k) implies k == spec_trampoline_vpn() || ra1@.contains(k) by {
        assert(pt0@.contains_key(k));
        if ra0@.contains(k) {
            lemma_key_of_small(k, r.0, r.1);
        }
    }
    assert forall|v: usize| #[trigger] pt1.trackers().contains_key(v) implies ra1@.contains(v) by {
        assert(pt0.trackers().contains_key(v));
        if r.0 <= v < r.1 {
            assert(areas0[r].spec_mapping() == AreaMapping::Framed);
        }
    }
}

impl Space {
    /// Adds `area`, whose range is allocated in the space and free of other areas,
    /// after writing `data` into it from byte `offset` on.
    fn push(&mut self, area: Area, offset: usize, data: Option<&[u8]>) -> (r: Result<(), KernelError>)
        requires
            !old(self).areas().contains_key((area.spec_start(), area.spec_end())),
            space_wf(
                old(self).areas().insert((area.spec_start(), area.spec_end()), area),
                &old(self).spec_page_table(),
                &old(self).spec_allocator(),
            ),
            data matches Some(d) ==> {
                &&& (area.spec_end() - area.spec_start()) * MEMORY_PAGE_BYTE_SIZE <= usize::MAX
                &&& offset + d@.len() <= (area.spec_end() - area.spec_start()) * MEMORY_PAGE_BYTE_SIZE
                &&& d@.len() > 0 ==> area.spec_mapping() == AreaMapping::Framed
                &&& offset % MEMORY_PAGE_BYTE_SIZE == 0 || offset % MEMORY_PAGE_BYTE_SIZE + d@.len()
                    <= MEMORY_PAGE_BYTE_SIZE
            },
        ensures
            r is Ok,
            final(self).wf(),
            final(self).areas() == old(self).areas().insert((area.spec_start(), area.spec_end()), area),
            final(self).spec_allocator() == old(self).spec_allocator(),
            final(self).spec_page_table()@ == old(self).spec_page_table()@,
            final(self).spec_page_table().spec_asid() == old(self).spec_page_table().spec_asid(),
            final(self).spec_page_table().spec_root_ppn() == old(self).spec_page_table().spec_root_ppn(),
            forall|f: usize| #[trigger] final(self).spec_page_table().owns(f) == old(self).spec_page_table().owns(f),
            data is None ==> final(self).spec_page_table() == old(self).spec_page_table(),
            data matches Some(d) ==> area.spec_mapping() == AreaMapping::Framed ==> area.pages_written(
                &old(self).spec_page_table(),
                &final(self).spec_page_table(),
                offset as int,
                d@,
                offset + d@.len(),
            ),
    {
        let ghost key = (area.spec_start(), area.spec_end());
        let ghost areas1 = self.area_set@.insert(key, area);
        proof {
            assert(areas1.contains_key(key));
            assert(area_ok(areas1, &self.page_table, &self.page_range_allocator, key));
        }
        if let Some(d) = data {
            let ghost pt0 = self.page_table;
            area.write_multi_pages(offset, d, &mut self.page_table);
            proof {
                self.lemma_written_keeps(areas1, pt0, key);
            }
        }
        let range = area.range();
        match self.area_set.insert(range, area) {
            Some(_) => {
                proof {
                    assert(false);
                }
                Err(KernelError::AreaAllocFailed(range.0, range.1))
            },
            None => Ok(()),
        }
    }

    /// Writing into the frames of one area keeps the space well formed.
    #[verifier::spinoff_prover]
    proof fn lemma_written_keeps(&self, areas: Map<(usize, usize), Area>, pt0: PageTable, key: (usize, usize))
        requires
            space_wf(areas, &pt0, &self.page_range_allocator),
            areas.contains_key(key),
            self.page_table.wf(),
            self.page_table@ == pt0@,
            self.page_table.trackers().dom() == pt0.trackers().dom(),
            forall|w: usize| !(key.0 <= w < key.1) ==> #[trigger] self.page_table.trackers()[w] == pt0.trackers()[w],
            forall|u: usize| key.0 <= u < key.1 ==> #[trigger] self.page_table.trackers()[u].spec_ppn() == pt0.trackers()[u].spec_ppn(),
        ensures
            space_wf(areas, &self.page_table, &self.page_range_allocator),
    {
        let pt1 = self.page_table;
        let ra = self.page_range_allocator;
        assert forall|r: (usize, usize)| #[trigger] areas.contains_key(r) implies area_ok(areas, &pt1, &ra, r) by {
            let b = areas[r];
            assert(area_ok(areas, &pt0, &ra, r));
            assert forall|v: usize| b.spec_start() <= v < b.spec_end() implies {
                &&& #[trigger] pt1@.contains_key(vpn_key(v)) == pt0@.contains_key(vpn_key(v))
                &&& pt1@[vpn_key(v)] == pt0@[vpn_key(v)]
                &&& b.spec_mapping() == AreaMapping::Framed ==> pt1.trackers().contains_key(v)
                    == pt0.trackers().contains_key(v) && pt1.trackers()[v].spec_ppn() == pt0.trackers()[v].spec_ppn()
            } by {
                if key.0 <= v < key.1 {
                    assert(pt1.trackers()[v].spec_ppn() == pt0.trackers()[v].spec_ppn());
                } else {
                    assert(pt1.trackers()[v] == pt0.trackers()[v]);
                }
            }
            assert forall|v: usize| b.spec_start() <= v < b.spec_end() implies #[trigger] pt1@[vpn_key(v)] == pt0@[vpn_key(v)] by {
                assert(pt1@.contains_key(vpn_key(v)) == pt0@.contains_key(vpn_key(v)));
            }
            if b.spec_mapping() == AreaMapping::Framed {
                assert forall|v: usize| b.spec_start() <= v < b.spec_end() implies #[trigger] pt1.trackers().contains_key(v)
                    == pt0.trackers().contains_key(v) by {
                    assert(pt1@.contains_key(vpn_key(v)) == pt0@.contains_key(vpn_key(v)));
                }
                assert forall|v: usize| b.spec_start() <= v < b.spec_end() implies #[trigger] pt1.trackers()[v].spec_ppn()
                    == pt0.trackers()[v].spec_ppn() by {
                    assert(pt1@.contains_key(vpn_key(v)) == pt0@.contains_key(vpn_key(v)));
                }
            }
            lemma_area_kept(b, pt0, pt1);
            if b.spec_mapping() == AreaMapping::Identical {
                assert forall|v: usize| r.0 <= v < r.1 implies !#[trigger] pt1.trackers().contains_key(v) by {
                    assert(!pt0.trackers().contains_key(v));
                }
            }
        }
        assert forall|k: usize| #[trigger] pt1@.contains_key(k) implies k == spec_trampoline_vpn() || ra@.contains(k) by {
            assert(pt0@.contains_key(k));
        }
        assert forall|v: usize| #[trigger] pt1.trackers().contains_key(v) implies ra@.contains(v) by {
            assert(pt0.trackers().contains_key(v));
        }
    }
}

} // verus!

verus! {

impl Space {
    /// Writes `data` into the framed area of range `key`, from its first byte on.
    #[verifier::spinoff_prover]
    pub(crate) fn write_area(&mut self, key: (usize, usize), data: &[u8])
        requires
            old(self).wf(),
            old(self).areas().contains_key(key),
            old(self).areas()[key].spec_mapping() == AreaMapping::Framed,
            (key.1 - key.0) * MEMORY_PAGE_BYTE_SIZE <= usize::MAX,
            data@.len() <= (key.1 - key.0) * MEMORY_PAGE_BYTE_SIZE,
        ensures
            final(self).wf(),
            final(self).areas() == old(self).areas(),
            final(self).spec_allocator() == old(self).spec_allocator(),
            final(self).spec_page_table()@ == old(self).spec_page_table()@,
            final(self).spec_page_table().spec_asid() == old(self).spec_page_table().spec_asid(),
            final(self).spec_page_table().l1_set() == old(self).spec_page_table().l1_set(),
            final(self).spec_page_table().l2_set() == old(self).spec_page_table().l2_set(),
            forall|f: usize| #[trigger] final(self).spec_page_table().owns(f) == old(self).spec_page_table().owns(f),
            final(self).spec_page_table().trackers().dom() == old(self).spec_page_table().trackers().dom(),
            forall|w: usize| !(key.0 <= w < key.1) ==> #[trigger] final(self).spec_page_table().trackers()[w]
                == old(self).spec_page_table().trackers()[w],
            old(self).areas()[key].pages_written(
                &old(self).spec_page_table(),
                &final(self).spec_page_table(),
                0,
                data@,
                data@.len() as int,
            ),
    {
        let ghost pt0 = self.page_table;
        let ghost areas = self.area_set@;
        proof {
            assert(area_ok(areas, &pt0, &self.page_range_allocator, key));
        }
        match self.area_set.get(&key) {
            Some(area) => {
                area.write_multi_pages(0, data, &mut self.page_table);
            },
            None => {
                proof {
                    assert(false);
                }
            },
        }
        proof {
            self.lemma_written_keeps(areas, pt0, key);
        }
    }
}

/// The trampoline page lies in `[s, e)` and is mapped in `space`.
pub open spec fn trampoline_in_use(space: &Space, s: usize, e: usize) -> bool {
    s <= spec_trampoline_vpn() < e && space.spec_page_table()@.contains_key(spec_trampoline_vpn())
}

/// Mapping `[s, e)` with `mapping` into `space` does not meet the trampoline page and
/// the frames it takes are left in `frames`.
pub open spec fn area_fits(space: &Space, frames: &BTreeSetFrameAllocator, s: usize, e: usize, mapping: AreaMapping) -> bool {
    &&& !trampoline_in_use(space, s, e)
    &&& frames.available() >= range_frames(
        space.spec_page_table().l1_set(),
        space.spec_page_table().l2_set(),
        s as int,
        e as int,
        crate::area::data_frames(mapping),
    )
}

impl Space {
    /// Creates the area `[s, e)` with `flags` and `mapping` in the space and adds it.
    /// `AreaAllocFailed` when the range is not free; then nothing changes.
    #[verifier::spinoff_prover]
    pub(crate) fn insert_area(
        &mut self,
        s: usize,
        e: usize,
        flags: PageTableFlags,
        mapping: AreaMapping,
        frames: &mut BTreeSetFrameAllocator,
    ) -> (r: Result<(), KernelError>)
        requires
            old(self).wf_in(&*old(frames)),
            mapping == AreaMapping::Framed ==> flags.bits != 0,
        ensures
            final(self).wf_in(&*final(frames)),
            PageTable::frames_kept(
                &old(self).spec_page_table(),
                &final(self).spec_page_table(),
                &*old(frames),
                &*final(frames),
            ),
            final(self).spec_page_table().spec_asid() == old(self).spec_page_table().spec_asid(),
            forall|f: usize| #[trigger] old(self).spec_page_table().owns(f) ==> final(self).spec_page_table().owns(f),
            forall|f: usize| #[trigger] final(self).spec_page_table().owns(f) && !old(self).spec_page_table().owns(f)
                ==> !old(frames).handed_out(f),
            r is Ok <==> range_free(&old(self).spec_allocator(), s, e) && area_fits(&*old(self), &*old(frames), s, e, mapping),
            !range_free(&old(self).spec_allocator(), s, e) ==> r == Err::<(), KernelError>(KernelError::AreaAllocFailed(s, e)),
            range_free(&old(self).spec_allocator(), s, e) && trampoline_in_use(&*old(self), s, e) ==> r == Err::<
                (),
                KernelError,
            >(KernelError::VPNAlreadyMapped(spec_trampoline_vpn())),
            range_free(&old(self).spec_allocator(), s, e) && !trampoline_in_use(&*old(self), s, e) && !area_fits(
                &*old(self),
                &*old(frames),
                s,
                e,
                mapping,
            ) ==> r == Err::<(), KernelError>(KernelError::FrameExhausted),
            range_free(&old(self).spec_allocator(), s, e) && can_map(
                &old(self).spec_page_table(),
                &*old(frames),
                s,
                e,
                flags,
                mapping,
            ) ==> r is Ok,
            r is Err ==> {
                &&& final(self).areas() == old(self).areas()
                &&& final(self).spec_page_table() == old(self).spec_page_table()
                &&& final(self).spec_allocator()@ == old(self).spec_allocator()@
                &&& *final(frames) == *old(frames)
            },
            r is Ok ==> final(self).areas() == old(self).areas().insert((s, e), final(self).areas()[(s, e)]),
            r is Ok ==> final(self).areas()[(s, e)].spec_start() == s && final(self).areas()[(s, e)].spec_end() == e,
            r is Ok ==> final(self).areas()[(s, e)].spec_flags() == flags && final(self).areas()[(
                s,
                e,
            )].spec_mapping() == mapping,
            r is Ok ==> final(self).spec_allocator()@ == old(self).spec_allocator()@.union(
                Set::new(|v: usize| s <= v < e),
            ),
            r is Ok ==> forall|k: usize| !(s <= k < e) ==> (#[trigger] final(self).spec_page_table()@.contains_key(k)
                == old(self).spec_page_table()@.contains_key(k) && (old(self).spec_page_table()@.contains_key(k)
                ==> final(self).spec_page_table()@[k] == old(self).spec_page_table()@[k])),
            r is Ok ==> forall|v: usize| s <= v < e ==> #[trigger] final(self).spec_page_table()@.contains_key(v),
            r is Ok ==> forall|v: usize|
                s <= v < e ==> #[trigger] final(self).spec_page_table()@[v] == final(self).areas()[(
                    s,
                    e,
                )].entry_of(&final(self).spec_page_table(), v),
            r is Ok && mapping == AreaMapping::Framed ==> forall|v: usize|
                s <= v < e ==> #[trigger] final(self).spec_page_table().trackers()[v]@ == crate::frame::zero_page(),
            r is Ok ==> forall|w: usize| !(s <= w < e) ==> #[trigger] final(self).spec_page_table().trackers().contains_key(w)
                == old(self).spec_page_table().trackers().contains_key(w),
            r is Ok ==> forall|w: usize| !(s <= w < e) && old(self).spec_page_table().trackers().contains_key(w)
                ==> #[trigger] final(self).spec_page_table().trackers()[w] == old(self).spec_page_table().trackers()[w],
            r is Ok ==> final(frames).available() == old(frames).available() - crate::area::range_frames(
                old(self).spec_page_table().l1_set(),
                old(self).spec_page_table().l2_set(),
                s as int,
                e as int,
                crate::area::data_frames(mapping),
            ),
            r is Ok ==> (final(self).spec_page_table().l1_set(), final(self).spec_page_table().l2_set())
                == crate::area::range_sets(
                old(self).spec_page_table().l1_set(),
                old(self).spec_page_table().l2_set(),
                s as int,
                e as int,
            ),
    {
        let ghost sp0 = *self;
        match self.page_range_allocator.allocate(s, e) {
            None => {
                return Err(KernelError::AreaAllocFailed(s, e));
            },
            Some(()) => {},
        }
        let _ = self.page_range_allocator.dealloc(s, e);
        proof {
            assert(self.page_range_allocator@ =~= sp0.page_range_allocator@);
            assert(range_free(&sp0.spec_allocator(), s, e));
            sp0.page_range_allocator.lemma_view_bounds();
            lemma_trampoline_is_max();
            assert(e <= spec_max_vpn() + 1);
        }
        let t = trampoline_virtual_page_number();
        if s <= t && t < e {
            proof {
                assert(vpn_key(t) == t);
            }
            if self.page_table.translate_ppn_with(t).is_some() {
                return Err(KernelError::VPNAlreadyMapped(t));
            }
        }
        let per: u128 = match mapping {
            AreaMapping::Framed => 1,
            AreaMapping::Identical => 0,
        };
        if frames.free_frames() < crate::area::frames_to_map(&self.page_table, s, e, per) {
            return Err(KernelError::FrameExhausted);
        }
        let ghost areas0 = self.area_set@;
        let ghost pt0 = self.page_table;
        let ghost ra0 = self.page_range_allocator;
        proof {
            assert(space_wf(areas0, &pt0, &ra0));
            lemma_free_unmapped(areas0, pt0, ra0, s, e);
        }
        let area = Area::new(s, e, flags, mapping, &mut self.page_range_allocator, &mut self.page_table, frames)?;
        let ghost pt1 = self.page_table;
        proof {
            assert(forall|w: usize| !(s <= w < e) ==> #[trigger] pt1.trackers().contains_key(w)
                == pt0.trackers().contains_key(w));
            assert forall|w: usize| !(s <= w < e) && pt0.trackers().contains_key(w) implies #[trigger] pt1.trackers()[w]
                == pt0.trackers()[w] by {
                assert(pt1.trackers().contains_key(w) == pt0.trackers().contains_key(w));
            }
            lemma_insert_area(areas0, pt0, ra0, self.page_table, self.page_range_allocator, area);
            ra0.lemma_view_bounds();
            assert forall|k: usize| !(s <= k < e) implies !key_in_range(k, s, e) by {
                lemma_key_of_small(k, s, e);
            }
            assert forall|k: usize| !(s <= k < e) implies (#[trigger] pt1@.contains_key(k) == pt0@.contains_key(k)
                && (pt0@.contains_key(k) ==> pt1@[k] == pt0@[k])) by {
                lemma_key_of_small(k, s, e);
            }
            assert forall|v: usize| s <= v < e implies #[trigger] self.page_table@.contains_key(v)
                && self.page_table@[v] == area.entry_of(&self.page_table, v) by {
                assert(vpn_key(v) == v);
                assert(self.page_table@.contains_key(vpn_key(v)));
            }
        }
        let r = self.push(area, 0, None);
        proof {
            assert(self.page_table == pt1);
            let a = self.areas()[(s, e)];
            assert(a == area);
            let pt = self.spec_page_table();
            assert(self.areas() == old(self).areas().insert((s, e), a));
            assert(old(self).spec_page_table() == pt0);
            assert forall|v: usize| s <= v < e implies #[trigger] pt@.contains_key(v) by {
                assert(vpn_key(v) == v);
                assert(pt@.contains_key(vpn_key(v)));
            }
            assert forall|v: usize| s <= v < e implies #[trigger] pt@[v] == a.entry_of(&pt, v) by {
                assert(vpn_key(v) == v);
                assert(pt@.contains_key(vpn_key(v)));
            }
            if mapping == AreaMapping::Framed {
                assert forall|v: usize| s <= v < e implies #[trigger] pt.trackers()[v]@ == crate::frame::zero_page() by {
                }
            }
        }
        r
    }

    /// Removes the area of the range `[start_vpn, end_vpn)`: its pages are unmapped,
    /// its data frames go back to `frames` and its range to the allocator.
    /// `AreaDeallocFailed` when there is no such area; then nothing changes.
    fn pop(&mut self, start_vpn: usize, end_vpn: usize, frames: &mut BTreeSetFrameAllocator) -> (r: Result<
        (),
        KernelError,
    >)
        requires
            old(self).wf_in(&*old(frames)),
        ensures
            final(self).wf_in(&*final(frames)),
            PageTable::frames_kept(
                &old(self).spec_page_table(),
                &final(self).spec_page_table(),
                &*old(frames),
                &*final(frames),
            ),
            final(self).spec_page_table().spec_asid() == old(self).spec_page_table().spec_asid(),
            forall|f: usize| #[trigger] final(self).spec_page_table().owns(f) ==> old(self).spec_page_table().owns(f),
            forall|w: usize| #[trigger] final(self).spec_page_table().trackers().contains_key(w)
                ==> old(self).spec_page_table().trackers().contains_key(w)
                && final(self).spec_page_table().trackers()[w] == old(self).spec_page_table().trackers()[w],
            r is Ok <==> old(self).areas().contains_key((start_vpn, end_vpn)),
            r is Err ==> {
                &&& r == Err::<(), KernelError>(KernelError::AreaDeallocFailed(start_vpn, end_vpn))
                &&& final(self).areas() == old(self).areas()
                &&& final(self).spec_page_table() == old(self).spec_page_table()
                &&& final(self).spec_allocator() == old(self).spec_allocator()
                &&& *final(frames) == *old(frames)
            },
            r is Ok ==> {
                &&& final(self).areas() == old(self).areas().remove((start_vpn, end_vpn))
                &&& final(self).spec_allocator()@ == old(self).spec_allocator()@.difference(
                    Set::new(|v: usize| start_vpn <= v < end_vpn),
                )
                &&& forall|k: usize| #[trigger] final(self).spec_page_table()@.contains_key(k) == (old(self).spec_page_table()@.contains_key(k) && !(start_vpn <= k < end_vpn))
                &&& forall|k: usize| #[trigger] final(self).spec_page_table()@.contains_key(k) ==> final(self).spec_page_table()@[k] == old(self).spec_page_table()@[k]
                &&& old(self).areas()[(start_vpn, end_vpn)].spec_mapping() == AreaMapping::Framed ==> forall|u: usize|
                    start_vpn <= u < end_vpn ==> !#[trigger] final(frames).handed_out(
                        old(self).spec_page_table().trackers()[u].spec_ppn(),
                    )
            },
    {
        let ghost areas0 = self.area_set@;
        let ghost pt0 = self.page_table;
        let ghost ra0 = self.page_range_allocator;
        let ghost key = (start_vpn, end_vpn);
        match self.area_set.remove(&(start_vpn, end_vpn)) {
            Some(area) => {
                proof {
                    assert(areas0.contains_key(key));
                    assert(area == areas0[key]);
                    assert(area_ok(areas0, &pt0, &ra0, key));
                    ra0.lemma_view_bounds();
                    assert(ra0@.contains((end_vpn - 1) as usize));
                }
                area.release(&mut self.page_range_allocator, &mut self.page_table, frames);
                proof {
                    lemma_remove_area(areas0, pt0, ra0, self.page_table, self.page_range_allocator, key);
                    assert(self.area_set@ == areas0.remove(key));
                    assert forall|k: usize| #[trigger] self.page_table@.contains_key(k) == (pt0@.contains_key(k)
                        && !(start_vpn <= k < end_vpn)) by {
                        if pt0@.contains_key(k) {
                            if k != spec_trampoline_vpn() {
                                assert(ra0@.contains(k));
                            }
                            lemma_key_of_small(k, start_vpn, end_vpn);
                        }
                    }
                }
                Ok(())
            },
            None => {
                proof {
                    assert(self.area_set@ == areas0);
                }
                Err(KernelError::AreaDeallocFailed(start_vpn, end_vpn))
            },
        }
    }
}

} // verus!

verus! {

/// A table change that keeps the entries and data frames of every area's pages keeps
/// the space well formed, as long as new keys are allowed ones.
proof fn lemma_pages_kept(
    areas: Map<(usize, usize), Area>,
    pt0: PageTable,
    pt1: PageTable,
    ra: LinkedListPageRangeAllocator,
)
    requires
        space_wf(areas, &pt0, &ra),
        pt1.wf(),
        pt1.trackers() == pt0.trackers(),
        forall|k: usize| #[trigger] pt0@.contains_key(k) ==> pt1@.contains_key(k) && pt1@[k] == pt0@[k],
        forall|k: usize| #[trigger] pt1@.contains_key(k) ==> k == spec_trampoline_vpn() || ra@.contains(k),
    ensures
        space_wf(areas, &pt1, &ra),
{
    assert forall|r: (usize, usize)| #[trigger] areas.contains_key(r) implies area_ok(areas, &pt1, &ra, r) by {
        let b = areas[r];
        assert(area_ok(areas, &pt0, &ra, r));
        assert forall|v: usize| b.spec_start() <= v < b.spec_end() implies #[trigger] pt1@.contains_key(vpn_key(v))
            == pt0@.contains_key(vpn_key(v)) by {
            assert(pt0@.contains_key(vpn_key(v)));
        }
        assert forall|v: usize| b.spec_start() <= v < b.spec_end() implies #[trigger] pt1@[vpn_key(v)]
            == pt0@[vpn_key(v)] by {
            assert(pt0@.contains_key(vpn_key(v)));
        }
        lemma_area_kept(b, pt0, pt1);
    }
}

impl Space {
    /// Maps the trampoline page, the last virtual page, to the frame `trampoline_ppn`
    /// that holds the trampoline code, readable and executable; the frame is shared,
    /// not allocated. `VPNAlreadyMapped` when the page is mapped; `FrameExhausted`
    /// when the mappers it needs cannot be created.
    pub fn map_trampoline(&mut self, trampoline_ppn: usize, frames: &mut BTreeSetFrameAllocator) -> (r: Result<
        (),
        KernelError,
    >)
        requires
            old(self).wf_in(&*old(frames)),
            trampoline_ppn < PPN_LIMIT,
        ensures
            final(self).wf_in(&*final(frames)),
            final(self).areas() == old(self).areas(),
            final(self).spec_allocator() == old(self).spec_allocator(),
            final(self).spec_page_table().trackers() == old(self).spec_page_table().trackers(),
            final(self).spec_page_table().spec_asid() == old(self).spec_page_table().spec_asid(),
            crate::page_table::PageTable::frames_kept(
                &old(self).spec_page_table(),
                &final(self).spec_page_table(),
                &*old(frames),
                &*final(frames),
            ),
            forall|f: usize| #[trigger] old(self).spec_page_table().owns(f) ==> final(self).spec_page_table().owns(f),
            forall|f: usize| #[trigger] final(self).spec_page_table().owns(f) && !old(self).spec_page_table().owns(f)
                ==> !old(frames).handed_out(f),
            old(self).spec_page_table()@.contains_key(spec_trampoline_vpn()) ==> r == Err::<(), KernelError>(
                KernelError::VPNAlreadyMapped(spec_trampoline_vpn()),
            ) && final(self).spec_page_table()@ == old(self).spec_page_table()@,
            !old(self).spec_page_table()@.contains_key(spec_trampoline_vpn()) && old(self).spec_page_table().needed_frames(spec_trampoline_vpn()) <= old(frames).available() ==> r is Ok
                && final(self).spec_page_table()@ == old(self).spec_page_table()@.insert(
                spec_trampoline_vpn(),
                crate::page_table::spec_pte_new(trampoline_ppn, 11u8),
            ),
            !old(self).spec_page_table()@.contains_key(spec_trampoline_vpn()) && old(self).spec_page_table().needed_frames(spec_trampoline_vpn()) > old(frames).available() ==> r
                == Err::<(), KernelError>(KernelError::FrameExhausted) && final(self).spec_page_table()@ == old(self).spec_page_table()@,
    {
        let ghost pt0 = self.page_table;
        let vpn = trampoline_virtual_page_number();
        proof {
            assert(vpn_key(vpn) == vpn);
            assert(10u8 | 1u8 == 11u8) by (bit_vector);
        }
        let r = self.page_table.map_without_alloc(vpn, trampoline_ppn, PageTableFlags::rx(), frames);
        proof {
            lemma_pages_kept(self.area_set@, pt0, self.page_table, self.page_range_allocator);
        }
        r
    }
}

} // verus!

verus! {

impl Space {
    /// Adds the user stack of task `tid` above a program ending at `end_va`: readable,
    /// writeable, user accessible, with frames of its own. `AreaAllocFailed` when its
    /// range is not free, `VPNAlreadyMapped` when it covers the mapped trampoline page,
    /// `FrameExhausted` when the frames it takes are not left; then nothing changes.
    pub fn alloc_user_task_stack(&mut self, end_va: usize, tid: usize, frames: &mut BTreeSetFrameAllocator) -> (r:
        Result<(), KernelError>)
        requires
            old(self).wf_in(&*old(frames)),
            user_stack_fits(end_va, tid),
        ensures
            final(self).wf_in(&*final(frames)),
            r is Ok <==> range_free(&old(self).spec_allocator(), spec_user_stack_range(end_va, tid).0, spec_user_stack_range(end_va, tid).1) && area_fits(
                &*old(self),
                &*old(frames),
                spec_user_stack_range(end_va, tid).0,
                spec_user_stack_range(end_va, tid).1,
                AreaMapping::Framed,
            ),
            !range_free(&old(self).spec_allocator(), spec_user_stack_range(end_va, tid).0, spec_user_stack_range(end_va, tid).1) ==> r == Err::<(), KernelError>(
                KernelError::AreaAllocFailed(spec_user_stack_range(end_va, tid).0, spec_user_stack_range(end_va, tid).1),
            ),
            range_free(&old(self).spec_allocator(), spec_user_stack_range(end_va, tid).0, spec_user_stack_range(end_va, tid).1) && trampoline_in_use(&*old(self), spec_user_stack_range(end_va, tid).0, spec_user_stack_range(end_va, tid).1)
                ==> r == Err::<(), KernelError>(KernelError::VPNAlreadyMapped(spec_trampoline_vpn())),
            range_free(&old(self).spec_allocator(), spec_user_stack_range(end_va, tid).0, spec_user_stack_range(end_va, tid).1) && !trampoline_in_use(&*old(self), spec_user_stack_range(end_va, tid).0, spec_user_stack_range(end_va, tid).1)
                && !area_fits(&*old(self), &*old(frames), spec_user_stack_range(end_va, tid).0, spec_user_stack_range(end_va, tid).1, AreaMapping::Framed) ==> r == Err::<
                (),
                KernelError,
            >(KernelError::FrameExhausted),
            r is Err ==> final(self).areas() == old(self).areas()
                && final(self).spec_page_table() == old(self).spec_page_table()
                && final(self).spec_allocator()@ == old(self).spec_allocator()@ && *final(frames) == *old(frames),
            r is Ok ==> final(self).areas() == old(self).areas().insert(
                spec_user_stack_range(end_va, tid),
                final(self).areas()[spec_user_stack_range(end_va, tid)],
            ),
            r is Ok ==> final(self).areas()[spec_user_stack_range(end_va, tid)].spec_mapping() == AreaMapping::Framed
                && final(self).areas()[spec_user_stack_range(end_va, tid)].spec_flags().bits == 22,
    {
        let (start_vpn, end_vpn) = get_user_task_stack_vpn_range(end_va, tid);
        self.insert_area(start_vpn, end_vpn, PageTableFlags::rwu(), AreaMapping::Framed, frames)
    }

    /// Removes the user stack of task `tid` above a program ending at `end_va`.
    /// `AreaDeallocFailed` when there is none.
    pub fn dealloc_user_task_stack(&mut self, end_va: usize, tid: usize, frames: &mut BTreeSetFrameAllocator) -> (r:
        Result<(), KernelError>)
        requires
            old(self).wf_in(&*old(frames)),
            user_stack_fits(end_va, tid),
        ensures
            final(self).wf_in(&*final(frames)),
            r is Ok <==> old(self).areas().contains_key(spec_user_stack_range(end_va, tid)),
            r is Err ==> r == Err::<(), KernelError>(
                KernelError::AreaDeallocFailed(spec_user_stack_range(end_va, tid).0, spec_user_stack_range(end_va, tid).1),
            ) && final(self).areas() == old(self).areas()
                && final(self).spec_page_table() == old(self).spec_page_table()
                && final(self).spec_allocator()@ == old(self).spec_allocator()@ && *final(frames) == *old(frames),
            r is Ok ==> final(self).areas() == old(self).areas().remove(spec_user_stack_range(end_va, tid)),
    {
        let (start_vpn, end_vpn) = get_user_task_stack_vpn_range(end_va, tid);
        self.pop(start_vpn, end_vpn, frames)
    }

    /// Adds the trap context page of task `tid`: readable and writeable, not user
    /// accessible, with a frame of its own. `AreaAllocFailed` when the page is taken,
    /// `VPNAlreadyMapped` when it is the mapped trampoline page, `FrameExhausted` when
    /// the frames it takes are not left; then nothing changes.
    pub fn alloc_task_trap_ctx(&mut self, tid: usize, frames: &mut BTreeSetFrameAllocator) -> (r: Result<
        (),
        KernelError,
    >)
        requires
            old(self).wf_in(&*old(frames)),
            MEMORY_PAGE_BYTE_SIZE * tid <= TRAP_CTX_VIRTUAL_BASE_ADDR,
        ensures
            final(self).wf_in(&*final(frames)),
            r is Ok <==> range_free(&old(self).spec_allocator(), spec_trap_ctx_range(tid).0, spec_trap_ctx_range(tid).1) && area_fits(
                &*old(self),
                &*old(frames),
                spec_trap_ctx_range(tid).0,
                spec_trap_ctx_range(tid).1,
                AreaMapping::Framed,
            ),
            !range_free(&old(self).spec_allocator(), spec_trap_ctx_range(tid).0, spec_trap_ctx_range(tid).1) ==> r == Err::<(), KernelError>(
                KernelError::AreaAllocFailed(spec_trap_ctx_range(tid).0, spec_trap_ctx_range(tid).1),
            ),
            range_free(&old(self).spec_allocator(), spec_trap_ctx_range(tid).0, spec_trap_ctx_range(tid).1) && trampoline_in_use(&*old(self), spec_trap_ctx_range(tid).0, spec_trap_ctx_range(tid).1)
                ==> r == Err::<(), KernelError>(KernelError::VPNAlreadyMapped(spec_trampoline_vpn())),
            range_free(&old(self).spec_allocator(), spec_trap_ctx_range(tid).0, spec_trap_ctx_range(tid).1) && !trampoline_in_use(&*old(self), spec_trap_ctx_range(tid).0, spec_trap_ctx_range(tid).1)
                && !area_fits(&*old(self), &*old(frames), spec_trap_ctx_range(tid).0, spec_trap_ctx_range(tid).1, AreaMapping::Framed) ==> r == Err::<
                (),
                KernelError,
            >(KernelError::FrameExhausted),
            r is Err ==> final(self).areas() == old(self).areas()
                && final(self).spec_page_table() == old(self).spec_page_table()
                && final(self).spec_allocator()@ == old(self).spec_allocator()@ && *final(frames) == *old(frames),
            r is Ok ==> final(self).areas() == old(self).areas().insert(
                spec_trap_ctx_range(tid),
                final(self).areas()[spec_trap_ctx_range(tid)],
            ),
            r is Ok ==> final(self).areas()[spec_trap_ctx_range(tid)].spec_mapping() == AreaMapping::Framed
                && final(self).areas()[spec_trap_ctx_range(tid)].spec_flags().bits == 6,
    {
        let (start_vpn, end_vpn) = get_task_trap_ctx_vpn_range(tid);
        self.insert_area(start_vpn, end_vpn, PageTableFlags::rw(), AreaMapping::Framed, frames)
    }

    /// Removes the trap context page of task `tid`. `AreaDeallocFailed` when there is
    /// none.
    pub fn dealloc_task_trap_ctx(&mut self, tid: usize, frames: &mut BTreeSetFrameAllocator) -> (r: Result<
        (),
        KernelError,
    >)
        requires
            old(self).wf_in(&*old(frames)),
            MEMORY_PAGE_BYTE_SIZE * tid <= TRAP_CTX_VIRTUAL_BASE_ADDR,
        ensures
            final(self).wf_in(&*final(frames)),
            r is Ok <==> old(self).areas().contains_key(spec_trap_ctx_range(tid)),
            r is Err ==> r == Err::<(), KernelError>(
                KernelError::AreaDeallocFailed(spec_trap_ctx_range(tid).0, spec_trap_ctx_range(tid).1),
            ) && final(self).areas() == old(self).areas()
                && final(self).spec_page_table() == old(self).spec_page_table()
                && final(self).spec_allocator()@ == old(self).spec_allocator()@ && *final(frames) == *old(frames),
            r is Ok ==> final(self).areas() == old(self).areas().remove(spec_trap_ctx_range(tid)),
    {
        let (start_vpn, end_vpn) = get_task_trap_ctx_vpn_range(tid);
        self.pop(start_vpn, end_vpn, frames)
    }

    /// Adds the kernel stack of task `kid` below the trampoline: readable and
    /// writeable, with frames of its own; returns the page above its top.
    /// `AreaAllocFailed` when its range is taken, `VPNAlreadyMapped` when it covers the
    /// mapped trampoline page, `FrameExhausted` when the frames it takes are not left;
    /// then nothing changes.
    pub fn map_kernel_task_stack(&mut self, kid: usize, frames: &mut BTreeSetFrameAllocator) -> (r: Result<
        usize,
        KernelError,
    >)
        requires
            old(self).wf_in(&*old(frames)),
            3 * kid + 2 <= spec_trampoline_vpn(),
        ensures
            final(self).wf_in(&*final(frames)),
            r is Ok <==> range_free(&old(self).spec_allocator(), spec_kernel_stack_range(kid).0, spec_kernel_stack_range(kid).1) && area_fits(
                &*old(self),
                &*old(frames),
                spec_kernel_stack_range(kid).0,
                spec_kernel_stack_range(kid).1,
                AreaMapping::Framed,
            ),
            !range_free(&old(self).spec_allocator(), spec_kernel_stack_range(kid).0, spec_kernel_stack_range(kid).1) ==> r == Err::<usize, KernelError>(
                KernelError::AreaAllocFailed(spec_kernel_stack_range(kid).0, spec_kernel_stack_range(kid).1),
            ),
            range_free(&old(self).spec_allocator(), spec_kernel_stack_range(kid).0, spec_kernel_stack_range(kid).1) && trampoline_in_use(&*old(self), spec_kernel_stack_range(kid).0, spec_kernel_stack_range(kid).1)
                ==> r == Err::<usize, KernelError>(KernelError::VPNAlreadyMapped(spec_trampoline_vpn())),
            range_free(&old(self).spec_allocator(), spec_kernel_stack_range(kid).0, spec_kernel_stack_range(kid).1) && !trampoline_in_use(&*old(self), spec_kernel_stack_range(kid).0, spec_kernel_stack_range(kid).1)
                && !area_fits(&*old(self), &*old(frames), spec_kernel_stack_range(kid).0, spec_kernel_stack_range(kid).1, AreaMapping::Framed) ==> r == Err::<
                usize,
                KernelError,
            >(KernelError::FrameExhausted),
            r is Err ==> final(self).areas() == old(self).areas()
                && final(self).spec_page_table() == old(self).spec_page_table()
                && final(self).spec_allocator()@ == old(self).spec_allocator()@ && *final(frames) == *old(frames),
            r is Ok ==> r == Ok::<usize, KernelError>(spec_kernel_stack_range(kid).1),
            r is Ok ==> final(self).areas() == old(self).areas().insert(
                spec_kernel_stack_range(kid),
                final(self).areas()[spec_kernel_stack_range(kid)],
            ),
            r is Ok ==> final(self).areas()[spec_kernel_stack_range(kid)].spec_mapping() == AreaMapping::Framed
                && final(self).areas()[spec_kernel_stack_range(kid)].spec_flags().bits == 6,
    {
        let (kernel_stack_bottom_vpn, kernel_stack_top_vpn) = get_kernel_task_stack_vpn_range(kid);
        self.insert_area(kernel_stack_bottom_vpn, kernel_stack_top_vpn, PageTableFlags::rw(), AreaMapping::Framed, frames)?;
        Ok(kernel_stack_top_vpn)
    }

    /// Removes the kernel stack of task `kid`. `AreaDeallocFailed` when there is none.
    pub fn unmap_kernel_task_stack(&mut self, kid: usize, frames: &mut BTreeSetFrameAllocator) -> (r: Result<
        (),
        KernelError,
    >)
        requires
            old(self).wf_in(&*old(frames)),
            3 * kid + 2 <= spec_trampoline_vpn(),
        ensures
            final(self).wf_in(&*final(frames)),
            r is Ok <==> old(self).areas().contains_key(spec_kernel_stack_range(kid)),
            r is Err ==> r == Err::<(), KernelError>(
                KernelError::AreaDeallocFailed(spec_kernel_stack_range(kid).0, spec_kernel_stack_range(kid).1),
            ) && final(self).areas() == old(self).areas()
                && final(self).spec_page_table() == old(self).spec_page_table()
                && final(self).spec_allocator()@ == old(self).spec_allocator()@ && *final(frames) == *old(frames),
            r is Ok ==> final(self).areas() == old(self).areas().remove(spec_kernel_stack_range(kid)),
            r is Ok ==> final(self).spec_allocator()@ == old(self).spec_allocator()@.difference(
                Set::new(|v: usize| spec_kernel_stack_range(kid).0 <= v < spec_kernel_stack_range(kid).1),
            ),
    {
        let (start_vpn, end_vpn) = get_kernel_task_stack_vpn_range(kid);
        self.pop(start_vpn, end_vpn, frames)
    }
}

} // verus!

verus! {

/// Where the kernel's devices and sections lie: address ranges `[start, end)` as the
/// board and the linker place them.
pub struct KernelLayout {
    pub mmio: Vec<(usize, usize)>,
    pub text: (usize, usize),
    pub rodata: (usize, usize),
    pub data: (usize, usize),
    pub bootstack: (usize, usize),
    pub bss: (usize, usize),
    pub free_mem: (usize, usize),
}

/// The pages that cover the address range `r`.
pub open spec fn section_range(r: (usize, usize)) -> (usize, usize) {
    (spec_vpn_of(r.0), spec_vpn_of((r.1 + 4095) as usize))
}

/// The pages that lie wholly in the address range `r`.
pub open spec fn free_range(r: (usize, usize)) -> (usize, usize) {
    (spec_vpn_of(r.0), spec_vpn_of(r.1))
}

/// The address range `r` can be rounded up to pages.
pub open spec fn range_fits(r: (usize, usize)) -> bool {
    r.1 + 4095 <= usize::MAX
}

/// Every range of the layout can be rounded up to pages.
pub open spec fn layout_fits(l: &KernelLayout) -> bool {
    &&& forall|i: int| 0 <= i < l.mmio@.len() ==> range_fits(#[trigger] l.mmio@[i])
    &&& range_fits(l.text)
    &&& range_fits(l.rodata)
    &&& range_fits(l.data)
    &&& range_fits(l.bootstack)
    &&& range_fits(l.bss)
}

/// A section that is mapped only when it is not empty.
pub open spec fn optional_section(r: (usize, usize), flags: u8) -> Seq<((usize, usize), u8)> {
    if r.0 != r.1 {
        seq![(r, flags)]
    } else {
        Seq::empty()
    }
}

/// The page ranges of the kernel space, in the order they are mapped, with their
/// permission bits: devices readable and writeable, code readable and executable,
/// read-only data readable, the other sections and the free memory readable and
/// writeable.
pub open spec fn kernel_plan(l: &KernelLayout) -> Seq<((usize, usize), u8)> {
    l.mmio@.map_values(|m: (usize, usize)| (section_range(m), 6u8)) + seq![
        (section_range(l.text), 10u8),
        (section_range(l.rodata), 2u8),
    ] + optional_section(section_range(l.data), 6u8) + optional_section(section_range(l.bootstack), 6u8)
        + optional_section(section_range(l.bss), 6u8) + seq![(free_range(l.free_mem), 6u8)]
}

/// The range `r` of pages holds at least one page.
pub open spec fn pages_nonempty(r: (usize, usize)) -> bool {
    r.0 != r.1
}

/// The kernel plan maps each part of the layout with its own permissions: every
/// device range, the .data, boot stack and .bss sections and the free memory
/// readable and writeable (6), .text readable and executable (10), .rodata
/// readable only (2); a .data, boot stack or .bss section without pages is left out.
pub proof fn law_kernel_section_permissions(l: &KernelLayout)
    ensures
        forall|i: int|
            0 <= i < l.mmio@.len() ==> kernel_plan(l).contains((section_range(#[trigger] l.mmio@[i]), 6u8)),
        kernel_plan(l).contains((section_range(l.text), 10u8)),
        kernel_plan(l).contains((section_range(l.rodata), 2u8)),
        pages_nonempty(section_range(l.data)) ==> kernel_plan(l).contains((section_range(l.data), 6u8)),
        pages_nonempty(section_range(l.bootstack)) ==> kernel_plan(l).contains((section_range(l.bootstack), 6u8)),
        pages_nonempty(section_range(l.bss)) ==> kernel_plan(l).contains((section_range(l.bss), 6u8)),
        kernel_plan(l).contains((free_range(l.free_mem), 6u8)),
{
    let plan = kernel_plan(l);
    let mm = l.mmio@.map_values(|m: (usize, usize)| (section_range(m), 6u8));
    let p1 = mm + seq![(section_range(l.text), 10u8), (section_range(l.rodata), 2u8)];
    let od = optional_section(section_range(l.data), 6u8);
    let ob = optional_section(section_range(l.bootstack), 6u8);
    let os = optional_section(section_range(l.bss), 6u8);
    let p2 = p1 + od;
    let p3 = p2 + ob;
    let p4 = p3 + os;
    assert(plan == p4 + seq![(free_range(l.free_mem), 6u8)]);
    assert forall|i: int| 0 <= i < l.mmio@.len() implies plan.contains((section_range(#[trigger] l.mmio@[i]), 6u8)) by {
        assert(plan[i] == mm[i]);
    }
    let n = mm.len() as int;
    assert(plan[n] == (section_range(l.text), 10u8));
    assert(plan[n + 1] == (section_range(l.rodata), 2u8));
    if pages_nonempty(section_range(l.data)) {
        assert(plan[p1.len() as int] == (section_range(l.data), 6u8));
    }
    if pages_nonempty(section_range(l.bootstack)) {
        assert(plan[p2.len() as int] == (section_range(l.bootstack), 6u8));
    }
    if pages_nonempty(section_range(l.bss)) {
        assert(plan[p3.len() as int] == (section_range(l.bss), 6u8));
    }
    assert(plan[p4.len() as int] == (free_range(l.free_mem), 6u8));
}

/// An entry of `plan` is an area of `areas` with the entry's permissions, when
/// every entry of `plan` is.
proof fn lemma_plan_entry_area(areas: Map<(usize, usize), Area>, plan: Seq<((usize, usize), u8)>, x: (
    (usize, usize),
    u8,
))
    requires
        forall|i: int| 0 <= i < plan.len() ==> #[trigger] areas.contains_key(plan[i].0),
        forall|i: int| 0 <= i < plan.len() ==> #[trigger] areas[plan[i].0].spec_flags().bits == plan[i].1,
        plan.contains(x),
    ensures
        areas.contains_key(x.0),
        areas[x.0].spec_flags().bits == x.1,
{
    let j = choose|j: int| 0 <= j < plan.len() && plan[j] == x;
    assert(areas.contains_key(plan[j].0));
    assert(areas[plan[j].0].spec_flags().bits == plan[j].1);
}

/// Page `v` lies in one of the first `n` ranges of `plan`.
pub open spec fn plan_covers(plan: Seq<((usize, usize), u8)>, n: int, v: usize) -> bool {
    exists|j: int| 0 <= j < n && #[trigger] plan[j].0.0 <= v < plan[j].0.1
}

/// The ranges of `plan` are not empty, lie below the trampoline and do not overlap.
pub open spec fn plan_ok(plan: Seq<((usize, usize), u8)>) -> bool {
    &&& forall|i: int| 0 <= i < plan.len() ==> #[trigger] plan[i].0.0 < plan[i].0.1 && plan[i].0.1
        <= spec_trampoline_vpn()
    &&& forall|i: int, j: int|
        0 <= i < j < plan.len() ==> disjoint(#[trigger] plan[i].0, #[trigger] plan[j].0)
}

/// Range `i` of `plan` can be allocated after the ranges before it: it is not empty
/// and meets none of them.
pub open spec fn plan_placeable(plan: Seq<((usize, usize), u8)>, i: int) -> bool {
    &&& plan[i].0.0 < plan[i].0.1
    &&& forall|j: int| 0 <= j < i ==> #[trigger] disjoint(plan[j].0, plan[i].0)
}

/// Every range of `plan` before the `i`-th can be allocated.
pub open spec fn plan_reached(plan: Seq<((usize, usize), u8)>, i: int) -> bool {
    forall|j: int| 0 <= j < i ==> #[trigger] plan_placeable(plan, j)
}

/// With the ranges before the `i`-th allocated, the `i`-th is free exactly when it
/// can be placed.
proof fn lemma_plan_free_iff_placeable(ra: &LinkedListPageRangeAllocator, plan: Seq<((usize, usize), u8)>, i: int)
    requires
        0 <= i < plan.len(),
        plan_reached(plan, i),
        plan[i].0.1 <= spec_max_vpn(),
        ra.start() == 0,
        ra.end() == spec_max_vpn() + 1,
        forall|v: usize| #[trigger] ra@.contains(v) <==> plan_covers(plan, i, v),
    ensures
        range_free(ra, plan[i].0.0, plan[i].0.1) <==> plan_placeable(plan, i),
{
    let r = plan[i].0;
    if range_free(ra, r.0, r.1) {
        assert forall|j: int| 0 <= j < i implies #[trigger] disjoint(plan[j].0, r) by {
            let q = plan[j].0;
            assert(plan_placeable(plan, j));
            if !disjoint(q, r) {
                let v: usize = if q.0 < r.0 { r.0 } else { q.0 };
                assert(plan_covers(plan, i, v));
                assert(ra@.contains(v));
            }
        }
    }
    if plan_placeable(plan, i) {
        assert forall|v: usize| r.0 <= v < r.1 implies !#[trigger] ra@.contains(v) by {
            if ra@.contains(v) {
                let j = choose|j: int| 0 <= j < i && #[trigger] plan[j].0.0 <= v < plan[j].0.1;
                assert(disjoint(plan[j].0, r));
            }
        }
    }
}

/// When every range before the `i`-th can be placed and the `i`-th cannot, the
/// `i`-th is the only reached range that fails.
proof fn lemma_plan_first_failure(plan: Seq<((usize, usize), u8)>, i: int)
    requires
        0 <= i < plan.len(),
        plan_reached(plan, i),
        !plan_placeable(plan, i),
    ensures
        forall|k: int| 0 <= k < plan.len() && plan_reached(plan, k) && !#[trigger] plan_placeable(plan, k) ==> k == i,
        !plan_reached(plan, plan.len() as int),
{
    assert forall|k: int| 0 <= k < plan.len() && plan_reached(plan, k) && !#[trigger] plan_placeable(plan, k) implies k
        == i by {
        if k < i {
            assert(plan_placeable(plan, k));
        } else if k > i {
            assert(plan_placeable(plan, i));
        }
    }
    if plan_reached(plan, plan.len() as int) {
        assert(plan_placeable(plan, i));
    }
}

/// The ranges of `plan` are not empty, lie below the trampoline page and do not
/// overlap exactly when each can be allocated after the ones before it and none
/// covers the trampoline page.
pub proof fn law_plan_ok(plan: Seq<((usize, usize), u8)>)
    requires
        forall|i: int| 0 <= i < plan.len() ==> (#[trigger] plan[i]).0.1 <= spec_max_vpn(),
    ensures
        plan_ok(plan) <==> plan_reached(plan, plan.len() as int) && !plan_covers(
            plan,
            plan.len() as int,
            spec_trampoline_vpn(),
        ),
{
    lemma_trampoline_is_max();
    if plan_ok(plan) {
        assert forall|j: int| 0 <= j < plan.len() implies #[trigger] plan_placeable(plan, j) by {
            assert(plan[j].0.0 < plan[j].0.1);
            assert forall|k: int| 0 <= k < j implies #[trigger] disjoint(plan[k].0, plan[j].0) by {
                assert(disjoint(plan[k].0, plan[j].0));
            }
        }
        if plan_covers(plan, plan.len() as int, spec_trampoline_vpn()) {
            let j = choose|j: int| 0 <= j < plan.len() && #[trigger] plan[j].0.0 <= spec_trampoline_vpn() < plan[j].0.1;
            assert(plan[j].0.1 <= spec_trampoline_vpn());
        }
    }
    if plan_reached(plan, plan.len() as int) && !plan_covers(plan, plan.len() as int, spec_trampoline_vpn()) {
        assert forall|i: int| 0 <= i < plan.len() implies #[trigger] plan[i].0.0 < plan[i].0.1 && plan[i].0.1
            <= spec_trampoline_vpn() by {
            assert(plan_placeable(plan, i));
            assert(plan[i].0.1 <= spec_max_vpn());
            if plan[i].0.1 > spec_trampoline_vpn() {
                assert(plan[i].0.0 <= spec_trampoline_vpn() < plan[i].0.1);
                assert(plan_covers(plan, plan.len() as int, spec_trampoline_vpn()));
            }
        }
        assert forall|i: int, j: int| 0 <= i < j < plan.len() implies disjoint(#[trigger] plan[i].0, #[trigger] plan[j].0) by {
            assert(plan_placeable(plan, j));
            assert(disjoint(plan[i].0, plan[j].0));
        }
    }
}

/// The frames that mapping the ranges of `plan` from the `i`-th on takes, one after
/// the other, when the mappers for the root entries `l1` and entry pairs `l2` exist,
/// and then the mappers for the trampoline page. Nothing is mapped after a range that
/// cannot be placed, nor the trampoline when a range covers it.
pub open spec fn kernel_frames(plan: Seq<((usize, usize), u8)>, i: int, l1: Set<int>, l2: Set<(int, int)>) -> int
    decreases plan.len() - i,
{
    if i >= plan.len() {
        if plan_covers(plan, plan.len() as int, spec_trampoline_vpn()) {
            0
        } else {
            frames_for(l1, l2, spec_trampoline_vpn())
        }
    } else if !plan_placeable(plan, i) {
        0
    } else {
        let r = plan[i].0;
        let sets = range_sets(l1, l2, r.0 as int, r.1 as int);
        range_frames(l1, l2, r.0 as int, r.1 as int, 0) + kernel_frames(plan, i + 1, sets.0, sets.1)
    }
}

proof fn lemma_kernel_frames_nonneg(plan: Seq<((usize, usize), u8)>, i: int, l1: Set<int>, l2: Set<(int, int)>)
    ensures
        kernel_frames(plan, i, l1, l2) >= 0,
    decreases plan.len() - i,
{
    if i < plan.len() && plan_placeable(plan, i) {
        let r = plan[i].0;
        let sets = range_sets(l1, l2, r.0 as int, r.1 as int);
        lemma_kernel_frames_nonneg(plan, i + 1, sets.0, sets.1);
        crate::area::lemma_range_frames_bound(l1, l2, r.0 as int, r.1 as int, 0);
    }
}

/// The frames that building the kernel space with the sections `sections` takes:
/// its root mapper and what `kernel_frames` counts.
fn kernel_frames_needed(sections: &Vec<(usize, usize, PageTableFlags)>, Ghost(plan): Ghost<
    Seq<((usize, usize), u8)>,
>) -> (r: u128)
    requires
        sections@.len() == plan.len(),
        forall|i: int| 0 <= i < sections@.len() ==> ((#[trigger] sections@[i]).0, sections@[i].1) == plan[i].0,
        forall|i: int| 0 <= i < sections@.len() ==> (#[trigger] sections@[i]).1 <= spec_max_vpn(),
    ensures
        r == 1 + kernel_frames(plan, 0, Set::empty(), Set::empty()),
{
    proof {
        lemma_trampoline_is_max();
    }
    let mut l1s: Vec<usize> = Vec::new();
    let mut l2s: Vec<(usize, usize)> = Vec::new();
    let mut acc: u128 = 1;
    let mut i: usize = 0;
    proof {
        assert(crate::area::l1_of(l1s@) =~= Set::<int>::empty());
        assert(crate::area::l2_of(l2s@) =~= Set::<(int, int)>::empty());
    }
    while i < sections.len()
        invariant
            sections@.len() == plan.len(),
            forall|k: int| 0 <= k < sections@.len() ==> ((#[trigger] sections@[k]).0, sections@[k].1) == plan[k].0,
            forall|k: int| 0 <= k < sections@.len() ==> (#[trigger] sections@[k]).1 <= spec_max_vpn(),
            spec_max_vpn() < VPN_LIMIT,
            0 <= i <= plan.len(),
            plan_reached(plan, i as int),
            acc + kernel_frames(plan, i as int, crate::area::l1_of(l1s@), crate::area::l2_of(l2s@)) == 1
                + kernel_frames(plan, 0, Set::empty(), Set::empty()),
            acc <= 1 + 0x1800_0000 * i,
        decreases plan.len() - i,
    {
        let (s, e, _) = sections[i];
        let mut placed = s < e;
        let mut j: usize = 0;
        while j < i
            invariant
                0 <= j <= i < plan.len(),
                sections@.len() == plan.len(),
                forall|k: int| 0 <= k < sections@.len() ==> ((#[trigger] sections@[k]).0, sections@[k].1) == plan[k].0,
                (s, e) == plan[i as int].0,
                placed == (s < e && forall|k: int| 0 <= k < j ==> #[trigger] disjoint(plan[k].0, (s, e))),
            decreases i - j,
        {
            let (s2, e2, _) = sections[j];
            if !(e2 <= s || e <= s2) {
                placed = false;
            }
            proof {
                assert(sections@[j as int].0 == s2 && sections@[j as int].1 == e2);
                assert(plan[j as int].0 == (s2, e2));
                assert(disjoint(plan[j as int].0, (s, e)) == (e2 <= s || e <= s2));
                if placed {
                    assert forall|k: int| 0 <= k < j + 1 implies #[trigger] disjoint(plan[k].0, (s, e)) by {
                        if k < j {
                            assert(disjoint(plan[k].0, (s, e)));
                        }
                    }
                }
            }
            j = j + 1;
        }
        proof {
            assert(placed == plan_placeable(plan, i as int));
        }
        if !placed {
            return acc;
        }
        let here = crate::area::range_frames_needed(&mut l1s, &mut l2s, s, e, 0);
        acc = acc + here;
        proof {
            assert forall|k: int| 0 <= k < i + 1 implies #[trigger] plan_placeable(plan, k) by {
                if k < i {
                    assert(plan_reached(plan, i as int));
                }
            }
        }
        i = i + 1;
    }
    let t = trampoline_virtual_page_number();
    let mut covered = false;
    let mut j: usize = 0;
    while j < sections.len()
        invariant
            0 <= j <= plan.len(),
            sections@.len() == plan.len(),
            forall|k: int| 0 <= k < sections@.len() ==> ((#[trigger] sections@[k]).0, sections@[k].1) == plan[k].0,
            t == spec_trampoline_vpn(),
            covered == plan_covers(plan, j as int, t),
        decreases plan.len() - j,
    {
        let (s2, e2, _) = sections[j];
        if s2 <= t && t < e2 {
            covered = true;
        }
        proof {
            assert(sections@[j as int].0 == s2 && sections@[j as int].1 == e2);
            assert(plan[j as int].0 == (s2, e2));
            if covered && !(s2 <= t && t < e2) {
                let k = choose|k: int| 0 <= k < j && #[trigger] plan[k].0.0 <= t < plan[k].0.1;
                assert(0 <= k < j + 1);
            }
            if s2 <= t && t < e2 {
                assert(plan[j as int].0.0 <= t < plan[j as int].0.1);
            }
            if plan_covers(plan, j + 1, t) {
                let k = choose|k: int| 0 <= k < j + 1 && #[trigger] plan[k].0.0 <= t < plan[k].0.1;
                if k < j {
                    assert(plan_covers(plan, j as int, t));
                }
            }
        }
        j = j + 1;
    }
    if covered {
        return acc;
    }
    let m = crate::area::page_mapper_frames(&mut l1s, &mut l2s, t);
    acc + m
}

/// The ranges and permissions of the kernel space's sections, in mapping order.
fn kernel_section_plan(l: &KernelLayout) -> (r: Vec<(usize, usize, PageTableFlags)>)
    requires
        layout_fits(l),
    ensures
        r@.len() == kernel_plan(l).len(),
        forall|i: int| 0 <= i < r@.len() ==> ((#[trigger] r@[i]).0, r@[i].1) == kernel_plan(l)[i].0 && r@[i].2.bits
            == kernel_plan(l)[i].1,
        forall|i: int| 0 <= i < r@.len() ==> (#[trigger] r@[i]).1 <= spec_max_vpn(),
{
    let ghost plan = kernel_plan(l);
    let ghost mm = l.mmio@.map_values(|m: (usize, usize)| (section_range(m), 6u8));
    let mut out: Vec<(usize, usize, PageTableFlags)> = Vec::new();
    let mut i: usize = 0;
    while i < l.mmio.len()
        invariant
            layout_fits(l),
            mm == l.mmio@.map_values(|m: (usize, usize)| (section_range(m), 6u8)),
            i <= l.mmio@.len(),
            out@.len() == i,
            forall|j: int| 0 <= j < i ==> ((#[trigger] out@[j]).0, out@[j].1) == mm[j].0 && out@[j].2.bits == mm[j].1,
            forall|j: int| 0 <= j < i ==> (#[trigger] out@[j]).1 <= spec_max_vpn(),
        decreases l.mmio@.len() - i,
    {
        let (start_va, end_va) = l.mmio[i];
        proof {
            assert(range_fits(l.mmio@[i as int]));
            lemma_vpn_bound((end_va + 4095) as usize);
        }
        out.push((vpn_floor(start_va), vpn_ceil(end_va), PageTableFlags::rw()));
        i = i + 1;
    }
    proof {
        lemma_vpn_bound((l.text.1 + 4095) as usize);
        lemma_vpn_bound((l.rodata.1 + 4095) as usize);
        lemma_vpn_bound((l.data.1 + 4095) as usize);
        lemma_vpn_bound((l.bootstack.1 + 4095) as usize);
        lemma_vpn_bound((l.bss.1 + 4095) as usize);
        lemma_vpn_bound(l.free_mem.1);
    }
    let ghost base = out@;
    out.push((vpn_floor(l.text.0), vpn_ceil(l.text.1), PageTableFlags::rx()));
    out.push((vpn_floor(l.rodata.0), vpn_ceil(l.rodata.1), PageTableFlags::r()));
    let ghost after_fixed = out@;
    let data = (vpn_floor(l.data.0), vpn_ceil(l.data.1));
    if data.0 != data.1 {
        out.push((data.0, data.1, PageTableFlags::rw()));
    }
    let ghost after_data = out@;
    let bootstack = (vpn_floor(l.bootstack.0), vpn_ceil(l.bootstack.1));
    if bootstack.0 != bootstack.1 {
        out.push((bootstack.0, bootstack.1, PageTableFlags::rw()));
    }
    let ghost after_boot = out@;
    let bss = (vpn_floor(l.bss.0), vpn_ceil(l.bss.1));
    if bss.0 != bss.1 {
        out.push((bss.0, bss.1, PageTableFlags::rw()));
    }
    let ghost after_bss = out@;
    out.push((vpn_floor(l.free_mem.0), vpn_floor(l.free_mem.1), PageTableFlags::rw()));
    proof {
        let p1 = mm + seq![(section_range(l.text), 10u8), (section_range(l.rodata), 2u8)];
        let p2 = p1 + optional_section(section_range(l.data), 6u8);
        let p3 = p2 + optional_section(section_range(l.bootstack), 6u8);
        let p4 = p3 + optional_section(section_range(l.bss), 6u8);
        assert(plan == p4 + seq![(free_range(l.free_mem), 6u8)]);
        assert(after_fixed.len() == p1.len());
        assert(forall|j: int| 0 <= j < after_fixed.len() ==> ((#[trigger] after_fixed[j]).0, after_fixed[j].1) == p1[j].0
            && after_fixed[j].2.bits == p1[j].1);
        assert(after_data.len() == p2.len());
        assert(forall|j: int| 0 <= j < after_data.len() ==> ((#[trigger] after_data[j]).0, after_data[j].1) == p2[j].0
            && after_data[j].2.bits == p2[j].1);
        assert(after_boot.len() == p3.len());
        assert(forall|j: int| 0 <= j < after_boot.len() ==> ((#[trigger] after_boot[j]).0, after_boot[j].1) == p3[j].0
            && after_boot[j].2.bits == p3[j].1);
        assert(after_bss.len() == p4.len());
        assert(forall|j: int| 0 <= j < after_bss.len() ==> ((#[trigger] after_bss[j]).0, after_bss[j].1) == p4[j].0
            && after_bss[j].2.bits == p4[j].1);
        assert(forall|j: int| 0 <= j < after_fixed.len() ==> (#[trigger] after_fixed[j]).1 <= spec_max_vpn());
        assert(forall|j: int| 0 <= j < after_data.len() ==> (#[trigger] after_data[j]).1 <= spec_max_vpn());
        assert(forall|j: int| 0 <= j < after_boot.len() ==> (#[trigger] after_boot[j]).1 <= spec_max_vpn());
        assert(forall|j: int| 0 <= j < after_bss.len() ==> (#[trigger] after_bss[j]).1 <= spec_max_vpn());
    }
    out
}

} // verus!

verus! {

/// In a well-formed space where the trampoline page is mapped only as part of an
/// allocated range, the pages of a free range are not mapped and have no data frame.
proof fn lemma_free_unmapped(areas: Map<(usize, usize), Area>, pt: PageTable, ra: LinkedListPageRangeAllocator, s: usize, e: usize)
    requires
        space_wf(areas, &pt, &ra),
        range_free(&ra, s, e),
        s <= spec_trampoline_vpn() < e && pt@.contains_key(spec_trampoline_vpn()) ==> ra@.contains(
            spec_trampoline_vpn(),
        ),
    ensures
        forall|v: usize| s <= v < e ==> !#[trigger] pt@.contains_key(vpn_key(v)),
        forall|v: usize| s <= v < e ==> !#[trigger] pt.trackers().contains_key(v),
        e <= VPN_LIMIT,
{
    assert forall|v: usize| s <= v < e implies !#[trigger] pt@.contains_key(vpn_key(v)) by {
        assert(vpn_key(v) == v);
        assert(!ra@.contains(v));
    }
}

impl Space {
    /// The kernel's address space: every device range and kernel section mapped to
    /// the frames of the same numbers (empty data, boot stack and bss sections are
    /// left out), the free memory as well, and the trampoline page mapped to the
    /// frame `trampoline_ppn`. It fails with `AreaAllocFailed` when a range is empty
    /// or overlaps one mapped before, and with `VPNAlreadyMapped` when a range covers
    /// the trampoline page; it succeeds when the ranges are not empty, lie below the
    /// trampoline page and do not overlap. `FrameExhausted`, with `frames` unchanged,
    /// when fewer frames are left than building it takes (`kernel_frames`).
    pub fn new_kernel(layout: &KernelLayout, trampoline_ppn: usize, frames: &mut BTreeSetFrameAllocator) -> (r: Result<
        Self,
        KernelError,
    >)
        requires
            old(frames).wf(),
            old(frames).spec_end_ppn() <= PPN_LIMIT,
            layout_fits(layout),
            trampoline_ppn < PPN_LIMIT,
        ensures
            final(frames).wf(),
            r is Err ==> forall|f: usize| #[trigger] final(frames).handed_out(f) == old(frames).handed_out(f),
            r is Ok ==> frames_since(&r->Ok_0, &*old(frames), &*final(frames)),
            old(frames).available() < 1 + kernel_frames(kernel_plan(layout), 0, Set::empty(), Set::empty())
                ==> r == Err::<Self, KernelError>(KernelError::FrameExhausted) && *final(frames) == *old(frames),
            forall|k: int|
                old(frames).available() >= 1 + kernel_frames(kernel_plan(layout), 0, Set::empty(), Set::empty()) && 0 <= k < kernel_plan(layout).len() && plan_reached(kernel_plan(layout), k) && !#[trigger] plan_placeable(
                    kernel_plan(layout),
                    k,
                ) ==> r == Err::<Self, KernelError>(
                    KernelError::AreaAllocFailed(kernel_plan(layout)[k].0.0, kernel_plan(layout)[k].0.1),
                ),
            old(frames).available() >= 1 + kernel_frames(kernel_plan(layout), 0, Set::empty(), Set::empty()) && plan_reached(kernel_plan(layout), kernel_plan(layout).len() as int)
                && plan_covers(kernel_plan(layout), kernel_plan(layout).len() as int, spec_trampoline_vpn())
                ==> r == Err::<Self, KernelError>(KernelError::VPNAlreadyMapped(spec_trampoline_vpn())),
            old(frames).available() >= 1 + kernel_frames(kernel_plan(layout), 0, Set::empty(), Set::empty()) && plan_reached(kernel_plan(layout), kernel_plan(layout).len() as int)
                && !plan_covers(kernel_plan(layout), kernel_plan(layout).len() as int, spec_trampoline_vpn())
                ==> r is Ok,
            old(frames).available() >= 1 + kernel_frames(kernel_plan(layout), 0, Set::empty(), Set::empty()) && plan_ok(kernel_plan(layout)) ==> r is Ok,
            r is Ok ==> {
                let s = r->Ok_0;
                &&& s.wf_in(&*final(frames))
                &&& s.spec_page_table().spec_asid() == MAX_TASK_ID
                &&& s.spec_page_table()@.contains_key(spec_trampoline_vpn())
                &&& s.spec_page_table()@[spec_trampoline_vpn()] == crate::page_table::spec_pte_new(
                    trampoline_ppn,
                    11u8,
                )
            },
            r is Ok ==> forall|i: int|
                0 <= i < kernel_plan(layout).len() ==> #[trigger] r->Ok_0.areas().contains_key(kernel_plan(layout)[i].0),
            r is Ok ==> forall|i: int|
                0 <= i < kernel_plan(layout).len() ==> #[trigger] r->Ok_0.areas()[kernel_plan(layout)[i].0].spec_mapping()
                    == AreaMapping::Identical,
            r is Ok ==> forall|i: int|
                0 <= i < kernel_plan(layout).len() ==> #[trigger] r->Ok_0.areas()[kernel_plan(layout)[i].0].spec_flags().bits
                    == kernel_plan(layout)[i].1,
            r is Ok ==> forall|i: int|
                0 <= i < layout.mmio@.len() ==> #[trigger] r->Ok_0.areas().contains_key(section_range(layout.mmio@[i]))
                    && r->Ok_0.areas()[section_range(layout.mmio@[i])].spec_flags().bits == 6,
            r is Ok ==> r->Ok_0.areas().contains_key(section_range(layout.text))
                && r->Ok_0.areas()[section_range(layout.text)].spec_flags().bits == 10,
            r is Ok ==> r->Ok_0.areas().contains_key(section_range(layout.rodata))
                && r->Ok_0.areas()[section_range(layout.rodata)].spec_flags().bits == 2,
            r is Ok && pages_nonempty(section_range(layout.data)) ==> r->Ok_0.areas().contains_key(
                section_range(layout.data),
            ) && r->Ok_0.areas()[section_range(layout.data)].spec_flags().bits == 6,
            r is Ok && pages_nonempty(section_range(layout.bootstack)) ==> r->Ok_0.areas().contains_key(
                section_range(layout.bootstack),
            ) && r->Ok_0.areas()[section_range(layout.bootstack)].spec_flags().bits == 6,
            r is Ok && pages_nonempty(section_range(layout.bss)) ==> r->Ok_0.areas().contains_key(
                section_range(layout.bss),
            ) && r->Ok_0.areas()[section_range(layout.bss)].spec_flags().bits == 6,
            r is Ok ==> r->Ok_0.areas().contains_key(free_range(layout.free_mem))
                && r->Ok_0.areas()[free_range(layout.free_mem)].spec_flags().bits == 6,
    {
        let ghost plan = kernel_plan(layout);
        proof {
            lemma_trampoline_is_max();
        }
        let sections = kernel_section_plan(layout);
        if frames.free_frames() < kernel_frames_needed(&sections, Ghost(plan)) {
            return Err(KernelError::FrameExhausted);
        }
        proof {
            lemma_kernel_frames_nonneg(plan, 0, Set::empty(), Set::empty());
        }
        let mut space = Self::new_bare(MAX_TASK_ID, frames)?;
        let mut i: usize = 0;
        proof {
            assert(plan.skip(0) =~= plan);
            space.page_range_allocator.lemma_view_bounds();
        }
        while i < sections.len()
            invariant
                plan == kernel_plan(layout),
                sections@.len() == plan.len(),
                forall|j: int| 0 <= j < sections@.len() ==> ((#[trigger] sections@[j]).0, sections@[j].1)
                    == plan[j].0 && sections@[j].2.bits == plan[j].1,
                i <= sections@.len(),
                space.wf_in(&*frames),
                frames_since(&space, &*old(frames), &*frames),
                space.spec_page_table().spec_asid() == MAX_TASK_ID,
                old(frames).available() >= 1 + kernel_frames(plan, 0, Set::empty(), Set::empty()),
                frames.available() >= kernel_frames(
                    plan,
                    i as int,
                    space.spec_page_table().l1_set(),
                    space.spec_page_table().l2_set(),
                ),
                !space.spec_page_table()@.contains_key(spec_trampoline_vpn()) || space.spec_allocator()@.contains(
                    spec_trampoline_vpn(),
                ),
                forall|j: int| 0 <= j < i ==> #[trigger] space.areas().contains_key(plan[j].0),
                forall|j: int| 0 <= j < i ==> #[trigger] space.areas()[plan[j].0].spec_mapping() == AreaMapping::Identical,
                forall|j: int| 0 <= j < i ==> #[trigger] space.areas()[plan[j].0].spec_flags().bits == plan[j].1,
                forall|j: int| 0 <= j < sections@.len() ==> (#[trigger] sections@[j]).1 <= spec_max_vpn(),
                plan_reached(plan, i as int),
                forall|v: usize| #[trigger] space.spec_allocator()@.contains(v) <==> plan_covers(plan, i as int, v),
            decreases sections@.len() - i,
        {
            let (start_vpn, end_vpn, flags) = sections[i];
            let ghost sp0 = space;
            let ghost f0 = *frames;
            proof {
                lemma_trampoline_is_max();
                assert(sections@[i as int].0 == plan[i as int].0.0);
                lemma_kernel_frames_nonneg(
                    plan,
                    i + 1,
                    range_sets(
                        space.spec_page_table().l1_set(),
                        space.spec_page_table().l2_set(),
                        start_vpn as int,
                        end_vpn as int,
                    ).0,
                    range_sets(
                        space.spec_page_table().l1_set(),
                        space.spec_page_table().l2_set(),
                        start_vpn as int,
                        end_vpn as int,
                    ).1,
                );
                if range_free(&space.spec_allocator(), start_vpn, end_vpn) {
                    lemma_free_unmapped(
                        space.areas(),
                        space.spec_page_table(),
                        space.spec_allocator(),
                        start_vpn,
                        end_vpn,
                    );
                    crate::area::lemma_range_frames_bound(
                        space.spec_page_table().l1_set(),
                        space.spec_page_table().l2_set(),
                        start_vpn as int,
                        end_vpn as int,
                        0,
                    );
                    assert(end_vpn < PPN_LIMIT);
                }
                space.spec_allocator().lemma_view_bounds();
                assert(plan[i as int].0.1 <= spec_max_vpn());
                lemma_plan_free_iff_placeable(&space.spec_allocator(), plan, i as int);
            }
            match space.insert_area(start_vpn, end_vpn, flags, AreaMapping::Identical, frames) {
                Ok(()) => {},
                Err(e) => {
                    proof {
                        lemma_plan_first_failure(plan, i as int);
                    }
                    let ghost f1 = *frames;
                    space.release(frames);
                    proof {
                        law_release_restores(&sp0, &*old(frames), &f1, &*frames);
                    }
                    return Err(e);
                },
            }
            proof {
                lemma_frames_since_step(&sp0, &space, &*old(frames), &f0, &*frames);
                crate::area::lemma_range_frames_bound(
                    sp0.spec_page_table().l1_set(),
                    sp0.spec_page_table().l2_set(),
                    start_vpn as int,
                    end_vpn as int,
                    0,
                );
                assert forall|j: int| 0 <= j < i + 1 implies #[trigger] space.areas().contains_key(plan[j].0)
                    && space.areas()[plan[j].0].spec_mapping() == AreaMapping::Identical
                    && space.areas()[plan[j].0].spec_flags().bits == plan[j].1 by {
                    if j < i {
                        assert(sp0.areas().contains_key(plan[j].0));
                        if sp0.areas().contains_key((start_vpn, end_vpn)) {
                            assert(area_ok(
                                sp0.areas(),
                                &sp0.spec_page_table(),
                                &sp0.spec_allocator(),
                                (start_vpn, end_vpn),
                            ));
                            assert(sp0.spec_allocator()@.contains(start_vpn));
                        }
                    }
                }
                assert(forall|j: int| 0 <= j < i + 1 ==> #[trigger] space.areas().contains_key(plan[j].0));
                assert forall|j: int| 0 <= j < i + 1 implies #[trigger] space.areas()[plan[j].0].spec_mapping()
                    == AreaMapping::Identical by {
                    assert(space.areas().contains_key(plan[j].0));
                }
                assert forall|j: int| 0 <= j < i + 1 implies #[trigger] space.areas()[plan[j].0].spec_flags().bits
                    == plan[j].1 by {
                    assert(space.areas().contains_key(plan[j].0));
                }
                assert forall|v: usize| #[trigger] space.spec_allocator()@.contains(v) <==> plan_covers(plan, i + 1, v) by {
                    if sp0.spec_allocator()@.contains(v) {
                        let j = choose|j: int| 0 <= j < i && #[trigger] plan[j].0.0 <= v < plan[j].0.1;
                        assert(0 <= j < i + 1 && plan[j].0.0 <= v < plan[j].0.1);
                    } else if start_vpn <= v < end_vpn {
                        assert(plan[i as int].0.0 <= v < plan[i as int].0.1);
                    }
                    if plan_covers(plan, i + 1, v) {
                        let j = choose|j: int| 0 <= j < i + 1 && #[trigger] plan[j].0.0 <= v < plan[j].0.1;
                        if j < i {
                            assert(plan_covers(plan, i as int, v));
                        }
                    }
                }
                assert(plan_reached(plan, i + 1)) by {
                    assert forall|j: int| 0 <= j < i + 1 implies #[trigger] plan_placeable(plan, j) by {
                        if j < i {
                            assert(plan_placeable(plan, j));
                        }
                    }
                }
            }
            i = i + 1;
        }
        proof {
            assert forall|k: int| 0 <= k < plan.len() implies (#[trigger] plan[k]).0.1 <= spec_max_vpn() by {
                assert(sections@[k].1 <= spec_max_vpn());
                assert((sections@[k].0, sections@[k].1) == plan[k].0);
            }
            law_plan_ok(plan);
            if plan_covers(plan, i as int, spec_trampoline_vpn()) {
                let j = choose|j: int| 0 <= j < i && #[trigger] plan[j].0.0 <= spec_trampoline_vpn() < plan[j].0.1;
                assert(space.areas().contains_key(plan[j].0));
                assert(area_ok(space.areas(), &space.spec_page_table(), &space.spec_allocator(), plan[j].0));
                assert(vpn_key(spec_trampoline_vpn()) == spec_trampoline_vpn());
                assert(space.spec_page_table()@.contains_key(vpn_key(spec_trampoline_vpn())));
            }
            assert(plan.skip(i as int).len() == 0);
            crate::page_table::PageTable::lemma_needed_bound(space.spec_page_table(), spec_trampoline_vpn());
        }
        let ghost sp2 = space;
        let ghost f2 = *frames;
        match space.map_trampoline(trampoline_ppn, frames) {
            Ok(()) => {},
            Err(e) => {
                proof {
                    lemma_frames_since_step(&sp2, &space, &*old(frames), &f2, &*frames);
                }
                let ghost s3 = space;
                let ghost f3 = *frames;
                space.release(frames);
                proof {
                    law_release_restores(&s3, &*old(frames), &f3, &*frames);
                }
                return Err(e);
            },
        }
        proof {
            lemma_frames_since_step(&sp2, &space, &*old(frames), &f2, &*frames);
            let areas = space.areas();
            assert(forall|i: int| 0 <= i < plan.len() ==> #[trigger] areas.contains_key(plan[i].0));
            assert(forall|i: int| 0 <= i < plan.len() ==> #[trigger] areas[plan[i].0].spec_flags().bits == plan[i].1);
            law_kernel_section_permissions(layout);
            assert forall|i: int| 0 <= i < layout.mmio@.len() implies #[trigger] areas.contains_key(
                section_range(layout.mmio@[i]),
            ) && areas[section_range(layout.mmio@[i])].spec_flags().bits == 6 by {
                lemma_plan_entry_area(areas, plan, (section_range(layout.mmio@[i]), 6u8));
            }
            lemma_plan_entry_area(areas, plan, (section_range(layout.text), 10u8));
            lemma_plan_entry_area(areas, plan, (section_range(layout.rodata), 2u8));
            if pages_nonempty(section_range(layout.data)) {
                lemma_plan_entry_area(areas, plan, (section_range(layout.data), 6u8));
            }
            if pages_nonempty(section_range(layout.bootstack)) {
                lemma_plan_entry_area(areas, plan, (section_range(layout.bootstack), 6u8));
            }
            if pages_nonempty(section_range(layout.bss)) {
                lemma_plan_entry_area(areas, plan, (section_range(layout.bss), 6u8));
            }
            lemma_plan_entry_area(areas, plan, (free_range(layout.free_mem), 6u8));
        }
        Ok(space)
    }
}

} // verus!

verus! {

/// The frames that copying the areas of `aa` at the ranges `ks` from the `i`-th on
/// takes, one after the other, when the mappers for the root entries `l1` and entry
/// pairs `l2` exist: the mappers and data frames of each copied area, then the
/// mappers of the trampoline page, which is not mapped when a copied area covers it.
/// The sum is the same in whatever order the ranges come.
pub open spec fn copy_frames(
    ks: Seq<(usize, usize)>,
    aa: Map<(usize, usize), Area>,
    excl: Option<Set<(usize, usize)>>,
    i: int,
    l1: Set<int>,
    l2: Set<(int, int)>,
) -> int
    decreases ks.len() - i,
{
    if i >= ks.len() {
        if copied_cover(ks, excl, ks.len() as int, spec_trampoline_vpn()) {
            0
        } else {
            frames_for(l1, l2, spec_trampoline_vpn())
        }
    } else if !copied(excl, ks[i]) {
        copy_frames(ks, aa, excl, i + 1, l1, l2)
    } else {
        let r = ks[i];
        let sets = range_sets(l1, l2, r.0 as int, r.1 as int);
        range_frames(l1, l2, r.0 as int, r.1 as int, crate::area::data_frames(aa[r].spec_mapping())) + copy_frames(
            ks,
            aa,
            excl,
            i + 1,
            sets.0,
            sets.1,
        )
    }
}

proof fn lemma_copy_frames_nonneg(
    ks: Seq<(usize, usize)>,
    aa: Map<(usize, usize), Area>,
    excl: Option<Set<(usize, usize)>>,
    i: int,
    l1: Set<int>,
    l2: Set<(int, int)>,
)
    ensures
        copy_frames(ks, aa, excl, i, l1, l2) >= 0,
    decreases ks.len() - i,
{
    if i < ks.len() {
        if !copied(excl, ks[i]) {
            lemma_copy_frames_nonneg(ks, aa, excl, i + 1, l1, l2);
        } else {
            let r = ks[i];
            let sets = range_sets(l1, l2, r.0 as int, r.1 as int);
            lemma_copy_frames_nonneg(ks, aa, excl, i + 1, sets.0, sets.1);
            crate::area::lemma_range_frames_nonneg(
                l1,
                l2,
                r.0 as int,
                r.1 as int,
                crate::area::data_frames(aa[r].spec_mapping()),
            );
        }
    }
}

/// The frames that copying the areas of `another` not in `excl` takes are left in
/// `frames`, whatever the order in which the ranges are listed.
pub open spec fn copy_fits(another: &Space, excl: Option<Set<(usize, usize)>>, frames: &BTreeSetFrameAllocator) -> bool {
    forall|ks: Seq<(usize, usize)>|
        #[trigger] ks.to_set() == another.areas().dom() && ks.no_duplicates() ==> frames.available() >= 1
            + copy_frames(ks, another.areas(), excl, 0, Set::empty(), Set::empty())
}

/// The ranges of the areas in `m`, each once.
fn area_keys(m: &BTreeMap<(usize, usize), Area>) -> (r: Vec<(usize, usize)>)
    ensures
        r@.to_set() == m@.dom(),
        r@.no_duplicates(),
{
    broadcast use vstd::std_specs::btree::axiom_spec_keys_iter;
    let mut ks: Vec<(usize, usize)> = Vec::new();
    for k in it: m.keys()
        invariant
            it.seq() == vstd::std_specs::btree::spec_keys_iter(m).remaining(),
            ks@ == it.seq().take(it.index() as int).unref(),
            it.index() == it.seq().len() ==> ks@ == it.seq().unref(),
    {
        ks.push(*k);
        proof {
            assert(ks@ =~= it.seq().take(it.index() + 1).unref());
            assert(it.seq().take(it.seq().len() as int) =~= it.seq());
        }
    }
    proof {
        assert(ks@.to_set() == m@.dom());
    }
    ks
}

/// Page `v` lies in one of the first `n` ranges of `keys`.
pub open spec fn keys_cover(keys: Seq<(usize, usize)>, n: int, v: usize) -> bool {
    exists|j: int| 0 <= j < n && #[trigger] keys[j].0 <= v < keys[j].1
}

impl Space {
    /// Removes every area: their pages are unmapped, their data frames go back to
    /// `frames` and their ranges to the allocator.
    pub fn recycle_data_pages(&mut self, frames: &mut BTreeSetFrameAllocator)
        requires
            old(self).wf_in(&*old(frames)),
        ensures
            final(self).wf_in(&*final(frames)),
            final(self).areas() == Map::<(usize, usize), Area>::empty(),
            final(self).spec_page_table().spec_asid() == old(self).spec_page_table().spec_asid(),
            forall|k: usize| #[trigger] final(self).spec_page_table()@.contains_key(k) ==> old(self).spec_page_table()@.contains_key(k) && final(self).spec_page_table()@[k] == old(self).spec_page_table()@[k],
            forall|k: usize, r: (usize, usize)| #[trigger] final(self).spec_page_table()@.contains_key(k) && #[trigger] old(self).areas().contains_key(r) ==> !(r.0 <= k < r.1),
            forall|v: usize| #[trigger] final(self).spec_allocator()@.contains(v) ==> old(self).spec_allocator()@.contains(v),
            forall|v: usize, r: (usize, usize)| #[trigger] final(self).spec_allocator()@.contains(v) && #[trigger] old(self).areas().contains_key(r) ==> !(r.0 <= v < r.1),
            PageTable::frames_kept(
                &old(self).spec_page_table(),
                &final(self).spec_page_table(),
                &*old(frames),
                &*final(frames),
            ),
            forall|f: usize| #[trigger] final(self).spec_page_table().owns(f) ==> old(self).spec_page_table().owns(f),
            forall|r: (usize, usize), u: usize|
                #[trigger] old(self).areas().contains_key(r) && old(self).areas()[r].spec_mapping() == AreaMapping::Framed
                && r.0 <= u < r.1 ==> !#[trigger] final(frames).handed_out(
                    old(self).spec_page_table().trackers()[u].spec_ppn(),
                ),
    {
        let keys = area_keys(&self.area_set);
        let ghost f0 = *frames;
        let ghost a0 = self.area_set@;
        let ghost pt0 = self.page_table;
        let ghost ra0 = self.page_range_allocator;
        let mut i: usize = 0;
        while i < keys.len()
            invariant
                keys@.to_set() == a0.dom(),
                keys@.no_duplicates(),
                i <= keys@.len(),
                self.wf_in(&*frames),
                self.spec_page_table().spec_asid() == pt0.spec_asid(),
                forall|r: (usize, usize)| #[trigger] self.areas().contains_key(r) <==> a0.contains_key(r)
                    && !keys@.take(i as int).contains(r),
                forall|k: usize| #[trigger] self.spec_page_table()@.contains_key(k) ==> pt0@.contains_key(k)
                    && self.spec_page_table()@[k] == pt0@[k],
                forall|k: usize| #[trigger] self.spec_page_table()@.contains_key(k) ==> !keys_cover(keys@, i as int, k),
                forall|v: usize| #[trigger] self.spec_allocator()@.contains(v) ==> ra0@.contains(v) && !keys_cover(
                    keys@,
                    i as int,
                    v,
                ),
                space_wf(a0, &pt0, &ra0),
                forall|r: (usize, usize)| #[trigger] self.areas().contains_key(r) ==> self.areas()[r] == a0[r],
                PageTable::frames_kept(&pt0, &self.spec_page_table(), &f0, &*frames),
                forall|f: usize| #[trigger] self.spec_page_table().owns(f) ==> pt0.owns(f),
                forall|w: usize| #[trigger] self.spec_page_table().trackers().contains_key(w)
                    ==> pt0.trackers().contains_key(w) && self.spec_page_table().trackers()[w] == pt0.trackers()[w],
                forall|r: (usize, usize), u: usize|
                    #[trigger] a0.contains_key(r) && keys@.take(i as int).contains(r) && a0[r].spec_mapping()
                    == AreaMapping::Framed && r.0 <= u < r.1 ==> !#[trigger] frames.handed_out(
                        pt0.trackers()[u].spec_ppn(),
                    ),
            decreases keys@.len() - i,
        {
            let (s, e) = keys[i];
            let ghost sp0 = *self;
            proof {
                assert(keys@.contains(keys@[i as int]));
                assert(a0.contains_key((s, e)));
                assert(!keys@.take(i as int).contains((s, e))) by {
                    if keys@.take(i as int).contains((s, e)) {
                        let j = choose|j: int| 0 <= j < i && keys@.take(i as int)[j] == (s, e);
                        assert(keys@[j] == keys@[i as int]);
                    }
                }
            }
            let ghost fr0 = *frames;
            let r = self.pop(s, e, frames);
            proof {
                assert(r is Ok);
                assert forall|f: usize| !pt0.owns(f) && !self.spec_page_table().owns(f) implies #[trigger] frames.handed_out(
                    f,
                ) == f0.handed_out(f) by {
                    assert(!sp0.spec_page_table().owns(f));
                }
                assert forall|q: (usize, usize), u: usize|
                    #[trigger] a0.contains_key(q) && keys@.take(i + 1).contains(q) && a0[q].spec_mapping()
                    == AreaMapping::Framed && q.0 <= u < q.1 implies !#[trigger] frames.handed_out(
                    pt0.trackers()[u].spec_ppn(),
                ) by {
                    if q == (s, e) {
                        assert(sp0.areas().contains_key(q));
                        assert(area_ok(sp0.areas(), &sp0.spec_page_table(), &sp0.spec_allocator(), q));
                        assert(sp0.areas()[q] == a0[q]);
                        assert(sp0.areas()[q].mapped_in(&sp0.spec_page_table()));
                        assert(sp0.spec_page_table()@.contains_key(vpn_key(u)));
                    } else {
                        let j = choose|j: int| 0 <= j < i + 1 && #[trigger] keys@.take(i + 1)[j] == q;
                        if j == i {
                            assert(keys@.take(i + 1)[j] == keys@[i as int]);
                        }
                        assert(keys@.take(i as int)[j] == q);
                        assert(keys@.take(i as int).contains(q));
                        let f = pt0.trackers()[u].spec_ppn();
                        assert(!fr0.handed_out(f));
                        assert(!sp0.spec_page_table().owns(f));
                    }
                }
                assert forall|q: (usize, usize)| #[trigger] self.areas().contains_key(q) <==> a0.contains_key(q)
                    && !keys@.take(i + 1).contains(q) by {
                    assert(sp0.areas().contains_key(q) == (a0.contains_key(q) && !keys@.take(i as int).contains(q)));
                    if keys@.take(i + 1).contains(q) {
                        let j = choose|j: int| 0 <= j < i + 1 && #[trigger] keys@.take(i + 1)[j] == q;
                        if j < i {
                            assert(keys@.take(i as int)[j] == q);
                        }
                    }
                    if keys@.take(i as int).contains(q) {
                        let j = choose|j: int| 0 <= j < i && #[trigger] keys@.take(i as int)[j] == q;
                        assert(keys@.take(i + 1)[j] == q);
                    }
                    if q == (s, e) {
                        assert(keys@.take(i + 1)[i as int] == q);
                    }
                }
                assert forall|k: usize| #[trigger] self.spec_page_table()@.contains_key(k) implies !keys_cover(
                    keys@,
                    i + 1,
                    k,
                ) by {
                    assert(sp0.spec_page_table()@.contains_key(k));
                    if keys_cover(keys@, i + 1, k) {
                        let j = choose|j: int| 0 <= j < i + 1 && #[trigger] keys@[j].0 <= k < keys@[j].1;
                        if j < i {
                            assert(keys_cover(keys@, i as int, k));
                        }
                    }
                }
                assert forall|v: usize| #[trigger] self.spec_allocator()@.contains(v) implies ra0@.contains(v)
                    && !keys_cover(keys@, i + 1, v) by {
                    assert(sp0.spec_allocator()@.contains(v));
                    if keys_cover(keys@, i + 1, v) {
                        let j = choose|j: int| 0 <= j < i + 1 && #[trigger] keys@[j].0 <= v < keys@[j].1;
                        if j < i {
                            assert(keys_cover(keys@, i as int, v));
                        }
                    }
                }
            }
            i = i + 1;
        }
        proof {
            assert(keys@.take(keys@.len() as int) =~= keys@);
            assert(self.areas() =~= Map::<(usize, usize), Area>::empty()) by {
                assert forall|q: (usize, usize)| !self.areas().contains_key(q) by {
                    if self.areas().contains_key(q) {
                        assert(keys@.contains(q));
                    }
                }
            }
            assert forall|k: usize, r: (usize, usize)| #[trigger] self.spec_page_table()@.contains_key(k) && #[trigger] a0.contains_key(
                r,
            ) implies !(r.0 <= k < r.1) by {
                assert(keys@.to_set().contains(r));
                let j = choose|j: int| 0 <= j < keys@.len() && keys@[j] == r;
                if r.0 <= k < r.1 {
                    assert(keys_cover(keys@, keys@.len() as int, k));
                }
            }
            assert forall|v: usize, r: (usize, usize)| #[trigger] self.spec_allocator()@.contains(v) && #[trigger] a0.contains_key(
                r,
            ) implies !(r.0 <= v < r.1) by {
                assert(keys@.to_set().contains(r));
                let j = choose|j: int| 0 <= j < keys@.len() && keys@[j] == r;
                if r.0 <= v < r.1 {
                    assert(keys_cover(keys@, keys@.len() as int, v));
                }
            }
        }
    }

}

} // verus!

verus! {

/// The byte at virtual address `va` in the data frames of `pt`.
pub open spec fn va_byte(pt: &PageTable, va: int) -> u8 {
    pt.trackers()[spec_vpn_of(va as usize)]@[spec_offset_of(va as usize) as int]
}

/// The page of every address in `[lo, hi)` has a data frame in `pt`.
pub open spec fn va_range_backed(pt: &PageTable, lo: int, hi: int) -> bool {
    forall|a: int| lo <= a < hi ==> #[trigger] pt.trackers().contains_key(spec_vpn_of(a as usize))
}

/// The ELF segment permission bits: executable, writeable, readable.
pub const ELF_PF_X: u32 = 1;
pub const ELF_PF_W: u32 = 2;
pub const ELF_PF_R: u32 = 4;

/// The page permissions of an ELF segment with permission bits `bits`.
pub open spec fn spec_convert_flags(bits: u32) -> u8 {
    (if bits & ELF_PF_R != 0 { 2u8 } else { 0u8 }) | (if bits & ELF_PF_W != 0 { 4u8 } else { 0u8 }) | (if bits
        & ELF_PF_X != 0 {
        8u8
    } else {
        0u8
    })
}

/// Each ELF permission bit gives its own page permission, whatever the other bits
/// are: readable (2) exactly when `PF_R` is set, writeable (4) exactly when `PF_W`
/// is, executable (8) exactly when `PF_X` is; no other page flag is ever set.
pub proof fn law_segment_permissions(bits: u32)
    ensures
        (spec_convert_flags(bits) & 2u8 != 0) == (bits & ELF_PF_R != 0),
        (spec_convert_flags(bits) & 4u8 != 0) == (bits & ELF_PF_W != 0),
        (spec_convert_flags(bits) & 8u8 != 0) == (bits & ELF_PF_X != 0),
        spec_convert_flags(bits) & 0xf1u8 == 0,
{
    let rr: u8 = if bits & ELF_PF_R != 0 { 2u8 } else { 0u8 };
    let ww: u8 = if bits & ELF_PF_W != 0 { 4u8 } else { 0u8 };
    let xx: u8 = if bits & ELF_PF_X != 0 { 8u8 } else { 0u8 };
    assert(spec_convert_flags(bits) == rr | ww | xx);
    assert(((rr | ww | xx) & 2u8 != 0) == (rr == 2u8) && ((rr | ww | xx) & 4u8 != 0) == (ww == 4u8) && ((rr | ww
        | xx) & 8u8 != 0) == (xx == 8u8) && (rr | ww | xx) & 0xf1u8 == 0) by (bit_vector)
        requires
            rr == 0u8 || rr == 2u8,
            ww == 0u8 || ww == 4u8,
            xx == 0u8 || xx == 8u8,
    ;
}

/// Converts ELF segment permission bits to page permissions: readable, writeable
/// and executable as the segment says.
pub fn convert_flags(bits: u32) -> (r: PageTableFlags)
    ensures
        r.bits == spec_convert_flags(bits),
        (r.bits & 2u8 != 0) == (bits & ELF_PF_R != 0),
        (r.bits & 4u8 != 0) == (bits & ELF_PF_W != 0),
        (r.bits & 8u8 != 0) == (bits & ELF_PF_X != 0),
        r.bits & 0xf1u8 == 0,
{
    let mut flags = PageTableFlags::empty();
    if bits & ELF_PF_R != 0 {
        flags = flags.union(PageTableFlags::r());
    }
    if bits & ELF_PF_W != 0 {
        flags = flags.union(PageTableFlags::w());
    }
    if bits & ELF_PF_X != 0 {
        flags = flags.union(PageTableFlags::x());
    }
    proof {
        assert(forall|x: u8| #[trigger] (x | 0u8) == x) by (bit_vector);
        assert(forall|x: u8| #[trigger] (0u8 | x) == x) by (bit_vector);
        law_segment_permissions(bits);
    }
    flags
}

proof fn lemma_same_page(a: usize, b: usize, page_base: int)
    requires
        page_base % 4096 == 0,
        page_base <= a < page_base + 4096,
        page_base <= b < page_base + 4096,
    ensures
        spec_vpn_of(a) == spec_vpn_of(b),
        spec_offset_of(b) as int - spec_offset_of(a) as int == b - a,
{
    crate::page_table::lemma_vpn_of(a);
    crate::page_table::lemma_vpn_of(b);
    crate::page_table::lemma_offset_of(a);
    crate::page_table::lemma_offset_of(b);
    assert(a as int / 4096 == page_base / 4096 && b as int / 4096 == page_base / 4096) by (nonlinear_arith)
        requires
            page_base % 4096 == 0,
            page_base <= a < page_base + 4096,
            page_base <= b < page_base + 4096,
    ;
    assert(a as int % 4096 == a - page_base && b as int % 4096 == b - page_base) by (nonlinear_arith)
        requires
            page_base % 4096 == 0,
            page_base <= a < page_base + 4096,
            page_base <= b < page_base + 4096,
    ;
}

/// Reading a string stops at address `a`: its page has no data frame or it holds a
/// NUL byte.
pub open spec fn string_stop(pt: &PageTable, a: int) -> bool {
    !pt.trackers().contains_key(spec_vpn_of(a as usize)) || va_byte(pt, a) == 0
}

/// The first address past the page of address `a`.
pub open spec fn page_end(a: int) -> int {
    a - a % 4096 + 4096
}

/// `a` is the first address from `ptr` on where reading a string stops.
pub open spec fn first_string_stop(pt: &PageTable, ptr: int, a: int) -> bool {
    &&& ptr <= a
    &&& string_stop(pt, a)
    &&& forall|b: int| ptr <= b < a ==> !#[trigger] string_stop(pt, b)
}

impl Space {
    /// The string at virtual address `ptr`: its bytes up to the first NUL byte, each
    /// taken as a character, read page by page. `VPNNotMapped` with the page of the
    /// first address that has no data frame before a NUL byte is found.
    pub fn translated_string(&self, ptr: usize) -> (r: Result<String, KernelError>)
        requires
            self.wf(),
            exists|a: int| ptr <= a && page_end(a) <= usize::MAX && #[trigger] string_stop(&self.spec_page_table(), a),
        ensures
            forall|a: int| #[trigger] first_string_stop(&self.spec_page_table(), ptr as int, a) ==> {
                &&& !self.spec_page_table().trackers().contains_key(spec_vpn_of(a as usize)) ==> r == Err::<
                    String,
                    KernelError,
                >(KernelError::VPNNotMapped(spec_vpn_of(a as usize)))
                &&& self.spec_page_table().trackers().contains_key(spec_vpn_of(a as usize)) ==> r is Ok
                    && r->Ok_0@ == Seq::new((a - ptr) as nat, |i: int| va_byte(&self.spec_page_table(), ptr + i) as char)
            },
    {
        let ghost pt = self.spec_page_table();
        let mut start_va = ptr;
        let mut string = String::new();
        loop
            invariant
                pt == self.spec_page_table(),
                self.wf(),
                ptr <= start_va,
                forall|b: int| ptr <= b < start_va ==> !#[trigger] string_stop(&pt, b),
                string@ == Seq::new((start_va - ptr) as nat, |i: int| va_byte(&pt, ptr + i) as char),
                exists|a: int| start_va <= a && page_end(a) <= usize::MAX && #[trigger] string_stop(&pt, a),
            decreases usize::MAX - start_va,
        {
            let tmp_start_va = start_va;
            let tmp_start_offset = get_va_offset(tmp_start_va);
            let tmp_byte_length = MEMORY_PAGE_BYTE_SIZE - tmp_start_offset;
            let ghost base = tmp_start_va - tmp_start_offset;
            proof {
                crate::page_table::lemma_offset_of(tmp_start_va);
                let a0 = choose|a: int| start_va <= a && page_end(a) <= usize::MAX && #[trigger] string_stop(&pt, a);
                assert(page_end(tmp_start_va as int) <= page_end(a0)) by (nonlinear_arith)
                    requires
                        tmp_start_va <= a0,
                        a0 >= 0,
                ;
                assert(base % 4096 == 0);
            }
            let tmp_end_va = tmp_start_va + tmp_byte_length;
            let vpn = vpn_floor(tmp_start_va);
            let buffer = match self.page_table.get_byte_array(vpn) {
                Ok(b) => b,
                Err(e) => {
                    proof {
                        assert(string_stop(&pt, tmp_start_va as int));
                        assert forall|a: int| #[trigger] first_string_stop(&pt, ptr as int, a) implies a
                            == tmp_start_va by {
                            if a < tmp_start_va {
                                assert(!string_stop(&pt, a));
                            } else if a > tmp_start_va {
                                assert(!string_stop(&pt, tmp_start_va as int));
                            }
                        }
                    }
                    return Err(e);
                },
            };
            proof {
                pt.lemma_tracker_wf(vpn);
            }
            let mut k = tmp_start_offset;
            while k < MEMORY_PAGE_BYTE_SIZE
                invariant
                    pt == self.spec_page_table(),
                    tmp_start_offset <= k <= MEMORY_PAGE_BYTE_SIZE,
                    tmp_start_offset == spec_offset_of(tmp_start_va),
                    base == tmp_start_va - tmp_start_offset,
                    base % 4096 == 0,
                    tmp_end_va == base + 4096,
                    vpn == spec_vpn_of(tmp_start_va),
                    pt.trackers().contains_key(vpn),
                    buffer@ == pt.trackers()[vpn]@,
                    buffer@.len() == MEMORY_PAGE_BYTE_SIZE,
                    ptr <= tmp_start_va,
                    forall|b: int| ptr <= b < base + k ==> !#[trigger] string_stop(&pt, b),
                    string@ == Seq::new((base + k - ptr) as nat, |i: int| va_byte(&pt, ptr + i) as char),
                decreases MEMORY_PAGE_BYTE_SIZE - k,
            {
                let byte = buffer[k];
                let ghost a = base + k;
                proof {
                    lemma_same_page(tmp_start_va, a as usize, base);
                    assert(va_byte(&pt, a) == byte);
                }
                if byte == 0 {
                    proof {
                        assert(string_stop(&pt, a));
                        assert forall|x: int| #[trigger] first_string_stop(&pt, ptr as int, x) implies x == a by {
                            if x < a {
                                assert(!string_stop(&pt, x));
                            } else if x > a {
                                assert(!string_stop(&pt, a));
                            }
                        }
                    }
                    return Ok(string);
                }
                push_char(&mut string, byte as char);
                proof {
                    assert(!string_stop(&pt, a));
                    assert(string@ =~= Seq::new((base + k + 1 - ptr) as nat, |i: int| va_byte(&pt, ptr + i) as char));
                }
                k = k + 1;
            }
            start_va = tmp_end_va;
        }
    }
}

/// A change of the page table's data that keeps its entries and the frames of its
/// pages keeps the space well formed.
proof fn lemma_contents_keep(
    areas: Map<(usize, usize), Area>,
    pt0: PageTable,
    pt1: PageTable,
    ra: LinkedListPageRangeAllocator,
)
    requires
        space_wf(areas, &pt0, &ra),
        pt1.wf(),
        pt1@ == pt0@,
        pt1.trackers().dom() == pt0.trackers().dom(),
        forall|v: usize| #[trigger] pt1.trackers()[v].spec_ppn() == pt0.trackers()[v].spec_ppn(),
    ensures
        space_wf(areas, &pt1, &ra),
{
    assert forall|r: (usize, usize)| #[trigger] areas.contains_key(r) implies area_ok(areas, &pt1, &ra, r) by {
        let b = areas[r];
        assert(area_ok(areas, &pt0, &ra, r));
        lemma_area_kept(b, pt0, pt1);
        if b.spec_mapping() == AreaMapping::Identical {
            assert forall|v: usize| r.0 <= v < r.1 implies !#[trigger] pt1.trackers().contains_key(v) by {
                assert(!pt0.trackers().contains_key(v));
            }
        }
    }
    assert forall|v: usize| #[trigger] pt1.trackers().contains_key(v) implies ra@.contains(v) by {
        assert(pt0.trackers().contains_key(v));
    }
}

/// Two addresses less than the Sv39 space apart in different pages lie in pages of
/// different numbers.
proof fn lemma_distinct_pages(a: usize, b: usize)
    requires
        a as int / 4096 < b as int / 4096,
        b - a < 0x80_0000_0000 - 4096,
    ensures
        spec_vpn_of(a) != spec_vpn_of(b),
{
    crate::page_table::lemma_vpn_of(a);
    crate::page_table::lemma_vpn_of(b);
    let p = a as int / 4096;
    let q = b as int / 4096;
    assert(q - p < 0x800_0000) by (nonlinear_arith)
        requires
            p == a as int / 4096,
            q == b as int / 4096,
            b - a < 0x80_0000_0000 - 4096,
            a >= 0,
            b >= 0,
    ;
    assert(p % 0x800_0000 != q % 0x800_0000) by (nonlinear_arith)
        requires
            0 <= p < q,
            q - p < 0x800_0000,
    ;
}

/// The number of pages that the virtual range `[ptr, ptr + len)` touches.
pub open spec fn piece_count(ptr: int, len: int) -> int {
    if len == 0 {
        0
    } else {
        (ptr + len - 1) / 4096 - ptr / 4096 + 1
    }
}

/// Where the part of `[ptr, ptr + len)` on its `i`-th page starts.
pub open spec fn piece_start(ptr: int, i: int) -> int {
    if i == 0 {
        ptr
    } else {
        (ptr / 4096 + i) * 4096
    }
}

/// Where the part of `[ptr, ptr + len)` on its `i`-th page ends.
pub open spec fn piece_end(ptr: int, len: int, i: int) -> int {
    let page_end = (ptr / 4096 + i + 1) * 4096;
    if ptr + len < page_end {
        ptr + len
    } else {
        page_end
    }
}

impl Space {
    /// The bytes of the virtual range `[ptr, ptr + len)`, copied out of the data
    /// frames page by page, one piece per page. `VPNNotMapped` with the first page of
    /// the range that has no data frame.
    pub fn translated_byte_buffers(&self, ptr: usize, len: usize) -> (r: Result<
        crate::buffer::ByteBuffers,
        KernelError,
    >)
        requires
            self.wf(),
            ptr + len <= usize::MAX,
        ensures
            va_range_backed(&self.spec_page_table(), ptr as int, ptr + len) ==> r is Ok && r->Ok_0.spec_len() == len
                && r->Ok_0@.flatten() == Seq::new(len as nat, |i: int| va_byte(&self.spec_page_table(), ptr + i)),
            va_range_backed(&self.spec_page_table(), ptr as int, ptr + len) ==> r->Ok_0@.len() == piece_count(
                ptr as int,
                len as int,
            ) && forall|i: int|
                0 <= i < r->Ok_0@.len() ==> #[trigger] r->Ok_0@[i] == Seq::new(
                    (piece_end(ptr as int, len as int, i) - piece_start(ptr as int, i)) as nat,
                    |j: int| va_byte(&self.spec_page_table(), piece_start(ptr as int, i) + j),
                ),
            !va_range_backed(&self.spec_page_table(), ptr as int, ptr + len) ==> exists|a: int|
                ptr <= a < ptr + len && !#[trigger] self.spec_page_table().trackers().contains_key(spec_vpn_of(a as usize))
                    && va_range_backed(&self.spec_page_table(), ptr as int, a) && r == Err::<
                    crate::buffer::ByteBuffers,
                    KernelError,
                >(KernelError::VPNNotMapped(spec_vpn_of(a as usize))),
    {
        let ghost pt = self.spec_page_table();
        let mut start_va = ptr;
        let end_va = ptr + len;
        let mut buffers: Vec<Vec<u8>> = Vec::new();
        while start_va < end_va
            invariant
                pt == self.spec_page_table(),
                self.wf(),
                ptr <= start_va <= end_va,
                end_va == ptr + len,
                va_range_backed(&pt, ptr as int, start_va as int),
                buffers@.len() == 0 ==> start_va == ptr,
                buffers@.len() > 0 ==> start_va > ptr,
                buffers@.len() > 0 ==> (start_va - 1) as int / 4096 == ptr as int / 4096 + buffers@.len() - 1,
                buffers@.len() > 0 && start_va < end_va ==> start_va as int % 4096 == 0,
                forall|i: int|
                    0 <= i < buffers@.len() ==> #[trigger] buffers@[i]@ == Seq::new(
                        (piece_end(ptr as int, len as int, i) - piece_start(ptr as int, i)) as nat,
                        |j: int| va_byte(&pt, piece_start(ptr as int, i) + j),
                    ),
                crate::buffer::pieces_view(buffers@).flatten() == Seq::new(
                    (start_va - ptr) as nat,
                    |i: int| va_byte(&pt, ptr + i),
                ),
            decreases end_va - start_va,
        {
            let tmp_start_va = start_va;
            let tmp_start_offset = get_va_offset(tmp_start_va);
            let tmp_byte_length = MEMORY_PAGE_BYTE_SIZE - tmp_start_offset;
            let tmp_end_va = if end_va - tmp_start_va < tmp_byte_length {
                end_va
            } else {
                tmp_start_va + tmp_byte_length
            };
            let tmp_end_offset = match get_va_offset(tmp_end_va) {
                0 => MEMORY_PAGE_BYTE_SIZE,
                a => a,
            };
            let vpn = vpn_floor(tmp_start_va);
            let ghost base = tmp_start_va - tmp_start_offset;
            proof {
                assert(base % 4096 == 0);
                if tmp_end_va < tmp_start_va + tmp_byte_length {
                    crate::page_table::lemma_offset_of(tmp_end_va);
                    assert(tmp_end_va as int % 4096 == tmp_end_va - base) by (nonlinear_arith)
                        requires
                            base % 4096 == 0,
                            base <= tmp_end_va < base + 4096,
                    ;
                } else {
                    crate::page_table::lemma_offset_of(tmp_end_va);
                    assert(tmp_end_va as int % 4096 == 0) by (nonlinear_arith)
                        requires
                            base % 4096 == 0,
                            tmp_end_va == base + 4096,
                    ;
                }
                assert(tmp_end_offset - tmp_start_offset == tmp_end_va - tmp_start_va);
            }
            let buffer = match self.page_table.get_byte_array(vpn) {
                Ok(b) => b,
                Err(e) => {
                    proof {
                        assert(!pt.trackers().contains_key(spec_vpn_of(tmp_start_va)));
                        assert(((tmp_start_va as int) as usize) == tmp_start_va);
                        assert(!pt.trackers().contains_key(spec_vpn_of((tmp_start_va as int) as usize)));
                        assert(!va_range_backed(&pt, ptr as int, ptr + len));
                        assert(ptr <= tmp_start_va < ptr + len && !pt.trackers().contains_key(
                            spec_vpn_of(tmp_start_va as int as usize),
                        ) && va_range_backed(&pt, ptr as int, tmp_start_va as int));
                    }
                    return Err(e);
                },
            };
            proof {
                pt.lemma_tracker_wf(vpn);
            }
            let mut piece: Vec<u8> = Vec::new();
            let mut k = tmp_start_offset;
            while k < tmp_end_offset
                invariant
                    tmp_start_offset <= k <= tmp_end_offset <= MEMORY_PAGE_BYTE_SIZE,
                    buffer@.len() == MEMORY_PAGE_BYTE_SIZE,
                    piece@ == buffer@.subrange(tmp_start_offset as int, k as int),
                decreases tmp_end_offset - k,
            {
                piece.push(buffer[k]);
                proof {
                    assert(piece@ =~= buffer@.subrange(tmp_start_offset as int, k + 1));
                }
                k = k + 1;
            }
            let ghost old_pieces = buffers@;
            let ghost k = buffers@.len() as int;
            proof {
                assert(base as int / 4096 == ptr as int / 4096 + k && base == tmp_start_va - tmp_start_offset) by {
                    crate::page_table::lemma_offset_of(tmp_start_va);
                    if k > 0 {
                        assert(tmp_start_va as int % 4096 == 0);
                    }
                }
                assert(tmp_start_va == piece_start(ptr as int, k)) by {
                    if k > 0 {
                        assert(tmp_start_va as int % 4096 == 0);
                        assert(tmp_start_offset == 0) by {
                            crate::page_table::lemma_offset_of(tmp_start_va);
                        }
                    }
                }
                assert(tmp_end_va == piece_end(ptr as int, len as int, k));
                assert forall|a: int| tmp_start_va <= a < tmp_end_va implies #[trigger] spec_vpn_of(a as usize) == vpn
                    && spec_offset_of(a as usize) as int - tmp_start_offset == a - tmp_start_va by {
                    lemma_same_page(tmp_start_va, a as usize, base);
                }
                assert(piece@ =~= Seq::new(
                    (piece_end(ptr as int, len as int, k) - piece_start(ptr as int, k)) as nat,
                    |j: int| va_byte(&pt, piece_start(ptr as int, k) + j),
                ));
            }
            buffers.push(piece);
            proof {
                let pv = crate::buffer::pieces_view(buffers@);
                assert(pv =~= crate::buffer::pieces_view(old_pieces).push(piece@));
                vstd::seq_lib::lemma_flatten_concat(crate::buffer::pieces_view(old_pieces), seq![piece@]);
                assert(crate::buffer::pieces_view(old_pieces).push(piece@) =~= crate::buffer::pieces_view(old_pieces)
                    + seq![piece@]);
                seq![piece@].lemma_flatten_one_element();
                assert forall|a: int| tmp_start_va <= a < tmp_end_va implies #[trigger] spec_vpn_of(a as usize) == vpn
                    && spec_offset_of(a as usize) as int - tmp_start_offset == a - tmp_start_va by {
                    lemma_same_page(tmp_start_va, a as usize, base);
                }
                assert(pv.flatten() =~= Seq::new((tmp_end_va - ptr) as nat, |i: int| va_byte(&pt, ptr + i)));
            }
            start_va = tmp_end_va;
        }
        proof {
            assert(start_va == end_va);
            assert(buffers@.len() == piece_count(ptr as int, len as int));
            assert forall|i: int| 0 <= i < buffers@.len() implies #[trigger] crate::buffer::pieces_view(buffers@)[i]
                == buffers@[i]@ by {}
        }
        Ok(crate::buffer::ByteBuffers::new(buffers, len))
    }
}

} // verus!

verus! {

/// The pages `[s, e)`.
pub open spec fn page_set(s: usize, e: usize) -> Set<usize> {
    Set::new(|v: usize| s <= v < e)
}

proof fn lemma_page_set_len(s: usize, e: usize)
    requires
        s <= e,
    ensures
        page_set(s, e).finite(),
        page_set(s, e).len() == e - s,
    decreases e - s,
{
    if s == e {
        assert(page_set(s, e) =~= Set::empty());
    } else {
        let e1 = (e - 1) as usize;
        lemma_page_set_len(s, e1);
        assert(page_set(s, e) =~= page_set(s, e1).insert(e1));
    }
}

/// The pages allocated in `ra` are finitely many.
proof fn lemma_alloc_finite(ra: &LinkedListPageRangeAllocator)
    requires
        ra.wf(),
    ensures
        ra@.finite(),
        ra@.len() <= ra.end(),
{
    ra.lemma_view_bounds();
    lemma_page_set_len(0, ra.end());
    assert(ra@.subset_of(page_set(0, ra.end())));
    vstd::set_lib::lemma_len_subset(ra@, page_set(0, ra.end()));
}

/// Page `v` lies in one of the first `n` ranges of `keys` that are copied.
pub open spec fn copied_cover(
    keys: Seq<(usize, usize)>,
    excl: Option<Set<(usize, usize)>>,
    n: int,
    v: usize,
) -> bool {
    exists|j: int| 0 <= j < n && copied(excl, keys[j]) && #[trigger] keys[j].0 <= v < keys[j].1
}

/// Whether the area at `r` is copied when `exclude_ranges` are left out: every area
/// when there is no set, else those whose range is not in it.
pub open spec fn copied(exclude_ranges: Option<Set<(usize, usize)>>, r: (usize, usize)) -> bool {
    match exclude_ranges {
        None => true,
        Some(set) => !set.contains(r),
    }
}

} // verus!

verus! {

/// The ranges to leave out, as a set.
pub open spec fn exclude_view(exclude_ranges: Option<&BTreeSet<(usize, usize)>>) -> Option<Set<(usize, usize)>> {
    match exclude_ranges {
        Some(set) => Some(set@),
        None => None,
    }
}

impl Space {
    /// A user space with a copy of each area of `another` whose range is not in
    /// `exclude_ranges` (every area when there is no set): same range, permissions
    /// and mapping, with the bytes of framed pages copied into frames of its own; and
    /// the trampoline page mapped to `trampoline_ppn`. `VPNAlreadyMapped` when a
    /// copied area covers the trampoline page; `FrameExhausted` when the frames that
    /// copying takes (`copy_frames`) are not left. On an error `frames` is as before.
    pub fn new_user_from_another(
        asid: usize,
        another: &Space,
        exclude_ranges: Option<&BTreeSet<(usize, usize)>>,
        trampoline_ppn: usize,
        frames: &mut BTreeSetFrameAllocator,
    ) -> (r: Result<Self, KernelError>)
        requires
            another.wf(),
            old(frames).wf(),
            old(frames).spec_end_ppn() <= PPN_LIMIT,
            trampoline_ppn < PPN_LIMIT,
        ensures
            final(frames).wf(),
            r == Err::<Self, KernelError>(KernelError::FrameExhausted) ==> exists|ks: Seq<(usize, usize)>|
                #[trigger] ks.to_set() == another.areas().dom() && ks.no_duplicates() && old(frames).available() < 1
                    + copy_frames(ks, another.areas(), exclude_view(exclude_ranges), 0, Set::empty(), Set::empty()),
            copy_fits(another, exclude_view(exclude_ranges), &*old(frames)) ==> r != Err::<Self, KernelError>(
                KernelError::FrameExhausted,
            ),
            r is Err && r != Err::<Self, KernelError>(KernelError::FrameExhausted) ==> r == Err::<Self, KernelError>(
                KernelError::VPNAlreadyMapped(spec_trampoline_vpn()),
            ),
            r is Err ==> forall|f: usize| #[trigger] final(frames).handed_out(f) == old(frames).handed_out(f),
            r is Ok ==> frames_since(&r->Ok_0, &*old(frames), &*final(frames)),
            copy_fits(another, exclude_view(exclude_ranges), &*old(frames)) && (forall|q: (usize, usize)| #[trigger] another.areas().contains_key(q) && copied(exclude_view(exclude_ranges), q)
                ==> !(q.0 <= spec_trampoline_vpn() < q.1)) ==> r is Ok,
            r is Ok ==> r->Ok_0.wf_in(&*final(frames)),
            r is Ok ==> r->Ok_0.spec_page_table().spec_asid() == asid,
            r is Ok ==> r->Ok_0.spec_page_table()@.contains_key(spec_trampoline_vpn()),
            r is Ok ==> forall|q: (usize, usize)| #[trigger] r->Ok_0.areas().contains_key(q) <==> another.areas().contains_key(q)
                && copied(exclude_view(exclude_ranges), q),
            r is Ok ==> forall|q: (usize, usize)| #[trigger] r->Ok_0.areas().contains_key(q) ==> r->Ok_0.areas()[q].spec_flags()
                == another.areas()[q].spec_flags(),
            r is Ok ==> forall|q: (usize, usize)| #[trigger] r->Ok_0.areas().contains_key(q) ==> r->Ok_0.areas()[q].spec_mapping()
                == another.areas()[q].spec_mapping(),
            r is Ok ==> forall|v: usize| #[trigger] r->Ok_0.spec_page_table().trackers().contains_key(v) ==> r->Ok_0.spec_page_table().trackers()[v]@
                == another.spec_page_table().trackers()[v]@,
    {
        proof {
            lemma_alloc_finite(&another.page_range_allocator);
            lemma_trampoline_is_max();
        }
        let keys = area_keys(&another.area_set);
        let ghost aa = another.areas();
        let ghost apt = another.spec_page_table();
        let ghost ara = another.spec_allocator();
        let ghost excl = exclude_view(exclude_ranges);
        let ghost need = copy_frames(keys@, aa, excl, 0, Set::empty(), Set::empty());
        proof {
            lemma_copy_frames_nonneg(keys@, aa, excl, 0, Set::empty(), Set::empty());
        }
        let mut space = match Self::new_bare(asid, frames) {
            Ok(s) => s,
            Err(e) => {
                proof {
                    assert(keys@.to_set() == another.areas().dom());
                }
                return Err(e);
            },
        };
        let ghost mut c: Set<usize> = Set::empty();
        let mut i: usize = 0;
        while i < keys.len()
            invariant
                keys@.to_set() == aa.dom(),
                keys@.no_duplicates(),
                aa == another.areas(),
                apt == another.spec_page_table(),
                ara == another.spec_allocator(),
                excl == exclude_view(exclude_ranges),
                space_wf(aa, &apt, &ara),
                ara@.finite(),
                i <= keys@.len(),
                space.wf_in(&*frames),
                frames_since(&space, &*old(frames), &*frames),
                space.spec_page_table().spec_asid() == asid,
                space.spec_allocator()@ == c,
                c.finite(),
                c.subset_of(ara@),
                need == copy_frames(keys@, aa, excl, 0, Set::empty(), Set::empty()),
                old(frames).available() - 1 - frames.available() + copy_frames(
                    keys@,
                    aa,
                    excl,
                    i as int,
                    space.spec_page_table().l1_set(),
                    space.spec_page_table().l2_set(),
                ) == need,
                forall|v: usize| #[trigger] c.contains(v) ==> copied_cover(keys@, excl, i as int, v),
                space.spec_page_table()@.contains_key(spec_trampoline_vpn()) ==> c.contains(spec_trampoline_vpn()),
                forall|q: (usize, usize)| #[trigger] space.areas().contains_key(q) <==> aa.contains_key(q) && copied(excl, q)
                    && keys@.take(i as int).contains(q),
                forall|q: (usize, usize)| #[trigger] space.areas().contains_key(q) ==> space.areas()[q].spec_flags()
                    == aa[q].spec_flags(),
                forall|q: (usize, usize)| #[trigger] space.areas().contains_key(q) ==> space.areas()[q].spec_mapping()
                    == aa[q].spec_mapping(),
                forall|v: usize| #[trigger] space.spec_page_table().trackers().contains_key(v) ==> space.spec_page_table().trackers()[v]@
                    == apt.trackers()[v]@,
            decreases keys@.len() - i,
        {
            let range = keys[i];
            let ghost sp0 = space;
            proof {
                assert(keys@.contains(range));
                assert(aa.contains_key(range));
                assert(area_ok(aa, &apt, &ara, range));
                assert(!keys@.take(i as int).contains(range)) by {
                    if keys@.take(i as int).contains(range) {
                        let j = choose|j: int| 0 <= j < i && #[trigger] keys@.take(i as int)[j] == range;
                        assert(keys@[j] == keys@[i as int]);
                    }
                }
            }
            let skip = match exclude_ranges {
                None => false,
                Some(set) => set.contains(&range),
            };
            if !skip {
                let another_area = match another.area_set.get(&range) {
                    Some(a) => a,
                    None => {
                        proof {
                            assert(false);
                        }
                        return Err(KernelError::AreaNotExists(range.0, range.1));
                    },
                };
                let ghost pt0 = space.page_table;
                let ghost ra0 = space.page_range_allocator;
                let ghost f0 = *frames;
                proof {
                    assert(another_area == aa[range]);
                    ara.lemma_view_bounds();
                    assert(ara@.contains((range.1 - 1) as usize));
                    assert forall|v: usize| range.0 <= v < range.1 implies !#[trigger] c.contains(v) by {
                        if c.contains(v) {
                            let j = choose|j: int| 0 <= j < i && copied(excl, keys@[j]) && #[trigger] keys@[j].0 <= v
                                < keys@[j].1;
                            assert(keys@.contains(keys@[j]));
                            assert(aa.contains_key(keys@[j]));
                            assert(keys@[j] != keys@[i as int]);
                            assert(disjoint(keys@[j], range));
                        }
                    }
                    assert(range_free(&ra0, range.0, range.1));
                    lemma_free_unmapped(sp0.areas(), pt0, ra0, range.0, range.1);
                    let sets = range_sets(pt0.l1_set(), pt0.l2_set(), range.0 as int, range.1 as int);
                    lemma_copy_frames_nonneg(keys@, aa, excl, i + 1, sets.0, sets.1);
                    assert(aa[keys@[i as int]] == another_area);
                    lemma_page_set_len(range.0, range.1);
                }
                let per: u128 = match another_area.mapping() {
                    AreaMapping::Framed => 1,
                    AreaMapping::Identical => 0,
                };
                if frames.free_frames() < crate::area::frames_to_map(&space.page_table, range.0, range.1, per) {
                    let ghost s1 = space;
                    let ghost f1 = *frames;
                    space.release(frames);
                    proof {
                        law_release_restores(&s1, &*old(frames), &f1, &*frames);
                        assert(keys@.to_set() == another.areas().dom());
                    }
                    return Err(KernelError::FrameExhausted);
                }
                let area = match Area::from_another(
                    another_area,
                    &mut space.page_range_allocator,
                    &mut space.page_table,
                    frames,
                ) {
                    Ok(a) => a,
                    Err(e) => {
                        proof {
                            assert(false);
                        }
                        return Err(e);
                    },
                };
                proof {
                    lemma_insert_area(sp0.areas(), pt0, ra0, space.page_table, space.page_range_allocator, area);
                }
                let _ = space.push(area, 0, None);
                let ghost sp1 = space;
                proof {
                    assert(sp1.areas()[range] == area);
                    lemma_frames_since_step(&sp0, &sp1, &*old(frames), &f0, &*frames);
                }
                proof {
                    c = c.union(page_set(range.0, range.1));
                    assert(space.spec_allocator()@ =~= c);
                }
                if another_area.mapping() == AreaMapping::Framed {
                    let mut v = range.0;
                    while v < range.1
                        invariant
                            range.0 <= v <= range.1,
                            sp1.wf(),
                            sp1.areas().contains_key(range),
                            sp1.areas()[range].spec_mapping() == AreaMapping::Framed,
                            aa.contains_key(range),
                            area_ok(aa, &apt, &ara, range),
                            another_area == aa[range],
                            another_area.spec_mapping() == AreaMapping::Framed,
                            apt == another.spec_page_table(),
                            apt.wf(),
                            space.wf_in(&*frames),
                            frames_since(&sp1, &*old(frames), &*frames),
                            forall|f: usize| #[trigger] space.spec_page_table().owns(f) == sp1.spec_page_table().owns(f),
                            space.areas() == sp1.areas(),
                            space.areas().contains_key(range),
                            space.spec_allocator() == sp1.spec_allocator(),
                            space.spec_page_table()@ == sp1.spec_page_table()@,
                            space.spec_page_table().spec_asid() == sp1.spec_page_table().spec_asid(),
                            space.spec_page_table().l1_set() == sp1.spec_page_table().l1_set(),
                            space.spec_page_table().l2_set() == sp1.spec_page_table().l2_set(),
                            space.spec_page_table().trackers().dom() == sp1.spec_page_table().trackers().dom(),
                            forall|w: usize| !(range.0 <= w < range.1) ==> #[trigger] space.spec_page_table().trackers()[w]
                                == sp1.spec_page_table().trackers()[w],
                            forall|w: usize| range.0 <= w < range.1 ==> #[trigger] space.spec_page_table().trackers()[w].spec_ppn()
                                == sp1.spec_page_table().trackers()[w].spec_ppn(),
                            forall|w: usize| range.0 <= w < v ==> #[trigger] space.spec_page_table().trackers()[w]@
                                == apt.trackers()[w]@,
                        decreases range.1 - v,
                    {
                        let ghost pt1 = space.page_table;
                        proof {
                            assert(apt@.contains_key(vpn_key(v)));
                            assert(apt.trackers().contains_key(v));
                            apt.lemma_tracker_wf(v);
                            assert(sp1.spec_page_table().trackers().contains_key(v)) by {
                                assert(area_ok(sp1.areas(), &sp1.spec_page_table(), &sp1.spec_allocator(), range));
                                assert(sp1.spec_page_table()@.contains_key(vpn_key(v)));
                            }
                        }
                        let src = match another.page_table.get_byte_array(v) {
                            Ok(b) => b,
                            Err(e) => {
                                proof {
                                    assert(false);
                                }
                                return Err(e);
                            },
                        };
                        proof {
                            assert(pt1.trackers().contains_key(v));
                            pt1.lemma_tracker_wf(v);
                        }
                        let _ = space.page_table.write_bytes(v, 0, src.as_slice());
                        proof {
                            assert(space.page_table.trackers()[v]@ =~= apt.trackers()[v]@);
                            space.lemma_written_keeps(space.area_set@, pt1, range);
                        }
                        v = v + 1;
                    }
                }
                proof {
                    lemma_frames_since_step(&sp1, &space, &*old(frames), &*frames, &*frames);
                    assert forall|v: usize| #[trigger] space.spec_page_table().trackers().contains_key(v) implies space.spec_page_table().trackers()[v]@
                        == apt.trackers()[v]@ by {
                        if range.0 <= v < range.1 {
                            if another_area.spec_mapping() == AreaMapping::Identical {
                                assert(!space.spec_page_table().trackers().contains_key(v)) by {
                                    assert(area_ok(space.areas(), &space.spec_page_table(), &space.spec_allocator(), range));
                                }
                            }
                        } else {
                            assert(sp0.spec_page_table().trackers().contains_key(v));
                        }
                    }
                }
            }
            proof {
                assert forall|q: (usize, usize)| #[trigger] space.areas().contains_key(q) <==> aa.contains_key(q) && copied(excl, q)
                    && keys@.take(i + 1).contains(q) by {
                    if keys@.take(i + 1).contains(q) {
                        let j = choose|j: int| 0 <= j < i + 1 && #[trigger] keys@.take(i + 1)[j] == q;
                        if j < i {
                            assert(keys@.take(i as int)[j] == q);
                        }
                    }
                    if keys@.take(i as int).contains(q) {
                        let j = choose|j: int| 0 <= j < i && #[trigger] keys@.take(i as int)[j] == q;
                        assert(keys@.take(i + 1)[j] == q);
                    }
                    if q == range {
                        assert(keys@.take(i + 1)[i as int] == q);
                    }
                }
                assert forall|v: usize| #[trigger] c.contains(v) implies copied_cover(keys@, excl, i + 1, v) by {
                    if !page_set(range.0, range.1).contains(v) || skip {
                        let j = choose|j: int| 0 <= j < i && copied(excl, keys@[j]) && #[trigger] keys@[j].0 <= v
                            < keys@[j].1;
                        assert(0 <= j < i + 1 && copied(excl, keys@[j]) && keys@[j].0 <= v < keys@[j].1);
                    } else {
                        assert(copied(excl, keys@[i as int]) && keys@[i as int].0 <= v < keys@[i as int].1);
                    }
                }
            }
            i = i + 1;
        }
        proof {
            assert(keys@.take(keys@.len() as int) =~= keys@);
            crate::page_table::PageTable::lemma_needed_bound(space.spec_page_table(), spec_trampoline_vpn());
            vstd::set_lib::lemma_len_subset(c, ara@);
            if copied_cover(keys@, excl, keys@.len() as int, spec_trampoline_vpn()) {
                let j = choose|j: int| 0 <= j < keys@.len() && copied(excl, keys@[j]) && #[trigger] keys@[j].0
                    <= spec_trampoline_vpn() < keys@[j].1;
                assert(keys@.take(keys@.len() as int)[j] == keys@[j]);
                assert(keys@.contains(keys@[j]));
                assert(space.areas().contains_key(keys@[j]));
                assert(area_ok(space.areas(), &space.spec_page_table(), &space.spec_allocator(), keys@[j]));
                lemma_trampoline_is_max();
                assert(vpn_key(spec_trampoline_vpn()) == spec_trampoline_vpn());
                assert(space.spec_page_table()@.contains_key(vpn_key(spec_trampoline_vpn())));
            } else if copy_fits(another, excl, &*old(frames)) {
                assert(keys@.to_set() == another.areas().dom());
                assert(space.spec_page_table().needed_frames(spec_trampoline_vpn()) <= frames.available());
            }
            if forall|q: (usize, usize)| #[trigger] another.areas().contains_key(q) && copied(excl, q) ==> !(q.0
                <= spec_trampoline_vpn() < q.1) {
                if c.contains(spec_trampoline_vpn()) {
                    let j = choose|j: int| 0 <= j < i && copied(excl, keys@[j]) && #[trigger] keys@[j].0
                        <= spec_trampoline_vpn() < keys@[j].1;
                    assert(keys@.contains(keys@[j]));
                    assert(aa.contains_key(keys@[j]));
                }
                assert(!space.spec_page_table()@.contains_key(spec_trampoline_vpn()));
                if copied_cover(keys@, excl, keys@.len() as int, spec_trampoline_vpn()) {
                    let j = choose|j: int| 0 <= j < keys@.len() && copied(excl, keys@[j]) && #[trigger] keys@[j].0
                        <= spec_trampoline_vpn() < keys@[j].1;
                    assert(keys@.contains(keys@[j]));
                    assert(aa.contains_key(keys@[j]));
                }
            }
        }
        let ghost sp2 = space;
        let ghost f2 = *frames;
        match space.map_trampoline(trampoline_ppn, frames) {
            Ok(()) => {},
            Err(e) => {
                proof {
                    lemma_frames_since_step(&sp2, &space, &*old(frames), &f2, &*frames);
                    assert(keys@.to_set() == another.areas().dom());
                }
                let ghost s3 = space;
                let ghost f3 = *frames;
                space.release(frames);
                proof {
                    law_release_restores(&s3, &*old(frames), &f3, &*frames);
                }
                return Err(e);
            },
        }
        proof {
            lemma_frames_since_step(&sp2, &space, &*old(frames), &f2, &*frames);
        }
        Ok(space)
    }
}

/// Rounding an address of the Sv39 space down and up to pages: the page rounded down
/// holds the address, and rounding up gives the same page exactly when the address
/// is the first of its page, else the next one.
pub proof fn law_vpn_floor_ceil(va: usize)
    requires
        va < 0x80_0000_0000 - 4095,
        va + 4095 <= usize::MAX,
    ensures
        spec_vpn_of(va) * 4096 <= va < spec_vpn_of(va) * 4096 + 4096,
        va % 4096 == 0 ==> spec_vpn_of((va + 4095) as usize) == spec_vpn_of(va),
        va % 4096 != 0 ==> spec_vpn_of((va + 4095) as usize) == spec_vpn_of(va) + 1,
{
    let q = va as int / 4096;
    let c = (va + 4095) as int / 4096;
    crate::page_table::lemma_vpn_of(va);
    crate::page_table::lemma_vpn_of((va + 4095) as usize);
    assert(spec_vpn_of(va) == q) by {
        vstd::arithmetic::div_mod::lemma_small_mod(q as nat, 0x800_0000nat);
    }
    assert(spec_vpn_of((va + 4095) as usize) == c) by {
        vstd::arithmetic::div_mod::lemma_small_mod(c as nat, 0x800_0000nat);
    }
    assert(q * 4096 <= va < q * 4096 + 4096) by (nonlinear_arith)
        requires
            q == va as int / 4096,
            va >= 0,
    ;
    assert(va % 4096 == 0 ==> c == q) by (nonlinear_arith)
        requires
            q == va as int / 4096,
            c == (va + 4095) as int / 4096,
            va >= 0,
    ;
    assert(va % 4096 != 0 ==> c == q + 1) by (nonlinear_arith)
        requires
            q == va as int / 4096,
            c == (va + 4095) as int / 4096,
            va >= 0,
    ;
}

/// Adding the kernel stack of a task and removing it again gives back the space's
/// areas and allocated pages: the stack's range was free, so no area held it.
pub proof fn law_kernel_stack_roundtrip(s: &Space, kid: usize, stack: Area)
    requires
        s.wf(),
        3 * kid + 2 <= spec_trampoline_vpn(),
        range_free(&s.spec_allocator(), spec_kernel_stack_range(kid).0, spec_kernel_stack_range(kid).1),
    ensures
        !s.areas().contains_key(spec_kernel_stack_range(kid)),
        s.areas().insert(spec_kernel_stack_range(kid), stack).remove(spec_kernel_stack_range(kid)) == s.areas(),
        s.spec_allocator()@.union(
            Set::new(|v: usize| spec_kernel_stack_range(kid).0 <= v < spec_kernel_stack_range(kid).1),
        ).difference(Set::new(|v: usize| spec_kernel_stack_range(kid).0 <= v < spec_kernel_stack_range(kid).1))
            == s.spec_allocator()@,
{
    let r = spec_kernel_stack_range(kid);
    if s.areas().contains_key(r) {
        assert(area_ok(s.areas(), &s.spec_page_table(), &s.spec_allocator(), r));
        assert(s.spec_allocator()@.contains(r.0));
    }
    assert(s.areas().insert(r, stack).remove(r) =~= s.areas());
    let range = Set::new(|v: usize| r.0 <= v < r.1);
    assert(s.spec_allocator()@.union(range).difference(range) =~= s.spec_allocator()@);
}


impl Space {
    /// Ends the space: every frame its page table owns (the data frames of its
    /// pages, its mappers and its root) goes back to `frames`; its areas and page
    /// ranges go with it.
    pub fn release(self, frames: &mut BTreeSetFrameAllocator)
        requires
            self.wf_in(&*old(frames)),
        ensures
            final(frames).wf(),
            final(frames).spec_end_ppn() == old(frames).spec_end_ppn(),
            forall|f: usize| #[trigger] self.spec_page_table().owns(f) ==> !final(frames).handed_out(f),
            forall|f: usize| !self.spec_page_table().owns(f) ==> #[trigger] final(frames).handed_out(f) == old(frames).handed_out(f),
    {
        self.page_table.release(frames);
    }
}

/// Releasing a space that took exactly its own frames since `before` gives the
/// allocator back what it handed out in `before`.
pub proof fn law_release_restores(s: &Space, before: &BTreeSetFrameAllocator, now: &BTreeSetFrameAllocator, after: &BTreeSetFrameAllocator)
    requires
        frames_since(s, before, now),
        forall|f: usize| #[trigger] s.spec_page_table().owns(f) ==> !after.handed_out(f),
        forall|f: usize| !s.spec_page_table().owns(f) ==> #[trigger] after.handed_out(f) == now.handed_out(f),
    ensures
        forall|f: usize| #[trigger] after.handed_out(f) == before.handed_out(f),
{
    assert forall|f: usize| #[trigger] after.handed_out(f) == before.handed_out(f) by {
        if s.spec_page_table().owns(f) {
            assert(!before.handed_out(f));
        }
    }
}


/// Page `v` holds one of the addresses `[lo, hi)`.
pub open spec fn page_touched(lo: int, hi: int, v: usize) -> bool {
    exists|a: int| lo <= a < hi && #[trigger] spec_vpn_of(a as usize) == v
}

impl Space {
    /// Writes `data` into the space from virtual address `ptr` on, page by page, as
    /// the kernel does through the byte buffers of a user range. `VPNNotMapped` with
    /// the first page of the range that has no data frame; then nothing is written.
    #[verifier::rlimit(40)]
    pub fn write_bytes_at(&mut self, ptr: usize, data: &[u8]) -> (r: Result<(), KernelError>)
        requires
            old(self).wf(),
            ptr + data@.len() <= usize::MAX,
            data@.len() <= 0x80_0000_0000 - 8192,
        ensures
            final(self).wf(),
            final(self).areas() == old(self).areas(),
            final(self).spec_allocator() == old(self).spec_allocator(),
            final(self).spec_page_table()@ == old(self).spec_page_table()@,
            final(self).spec_page_table().spec_asid() == old(self).spec_page_table().spec_asid(),
            final(self).spec_page_table().l1_set() == old(self).spec_page_table().l1_set(),
            final(self).spec_page_table().l2_set() == old(self).spec_page_table().l2_set(),
            forall|f: usize| #[trigger] final(self).spec_page_table().owns(f) == old(self).spec_page_table().owns(f),
            final(self).spec_page_table().trackers().dom() == old(self).spec_page_table().trackers().dom(),
            va_range_backed(&old(self).spec_page_table(), ptr as int, ptr + data@.len()) ==> {
                &&& r is Ok
                &&& forall|i: int| 0 <= i < data@.len() ==> #[trigger] va_byte(&final(self).spec_page_table(), ptr + i)
                    == data@[i]
                &&& forall|v: usize| !page_touched(ptr as int, ptr + data@.len(), v) ==> #[trigger] final(self).spec_page_table().trackers()[v] == old(self).spec_page_table().trackers()[v]
                &&& forall|a: int|
                    0 <= a <= usize::MAX && ptr - 4096 < a < ptr + data@.len() + 4096 && !(ptr <= a < ptr + data@.len())
                        ==> #[trigger] va_byte(&final(self).spec_page_table(), a) == va_byte(&old(self).spec_page_table(), a)
            },
            !va_range_backed(&old(self).spec_page_table(), ptr as int, ptr + data@.len()) ==> *final(self) == *old(self) && exists|a: int|
                ptr <= a < ptr + data@.len() && !#[trigger] old(self).spec_page_table().trackers().contains_key(
                    spec_vpn_of(a as usize),
                ) && va_range_backed(&old(self).spec_page_table(), ptr as int, a) && r == Err::<(), KernelError>(
                    KernelError::VPNNotMapped(spec_vpn_of(a as usize)),
                ),
    {
        let len = data.len();
        match self.translated_byte_buffers(ptr, len) {
            Ok(_) => {},
            Err(e) => return Err(e),
        }
        let ghost pt_start = self.spec_page_table();
        let mut start_va = ptr;
        let end_va = ptr + len;
        while start_va < end_va
            invariant
                ptr <= start_va <= end_va,
                end_va == ptr + data@.len(),
                data@.len() <= 0x80_0000_0000 - 8192,
                pt_start == old(self).spec_page_table(),
                va_range_backed(&pt_start, ptr as int, end_va as int),
                start_va == ptr || start_va == end_va || start_va as int % 4096 == 0,
                self.wf(),
                self.areas() == old(self).areas(),
                self.spec_allocator() == old(self).spec_allocator(),
                self.spec_page_table()@ == pt_start@,
                self.spec_page_table().spec_asid() == pt_start.spec_asid(),
                forall|f: usize| #[trigger] self.spec_page_table().owns(f) == pt_start.owns(f),
                self.spec_page_table().l1_set() == pt_start.l1_set(),
                self.spec_page_table().l2_set() == pt_start.l2_set(),
                self.spec_page_table().trackers().dom() == pt_start.trackers().dom(),
                forall|v: usize| #[trigger] self.spec_page_table().trackers()[v].spec_ppn() == pt_start.trackers()[v].spec_ppn(),
                forall|i: int| 0 <= i < start_va - ptr ==> #[trigger] va_byte(&self.spec_page_table(), ptr + i) == data@[i],
                forall|v: usize| !page_touched(ptr as int, start_va as int, v) ==> #[trigger] self.spec_page_table().trackers()[v]
                    == pt_start.trackers()[v],
                forall|a: int|
                    0 <= a <= usize::MAX && ptr - 4096 < a < end_va + 4096 && !(ptr <= a < start_va) ==> #[trigger] va_byte(
                        &self.spec_page_table(),
                        a,
                    ) == va_byte(&pt_start, a),
            decreases end_va - start_va,
        {
            let tmp_start_offset = get_va_offset(start_va);
            let room = MEMORY_PAGE_BYTE_SIZE - tmp_start_offset;
            let tmp_end_va = if end_va - start_va < room {
                end_va
            } else {
                start_va + room
            };
            let vpn = vpn_floor(start_va);
            let ghost base = start_va - tmp_start_offset;
            let ghost pt0 = self.spec_page_table();
            proof {
                crate::page_table::lemma_offset_of(start_va);
                assert(base % 4096 == 0);
                assert(((start_va as int) as usize) == start_va);
                assert(pt_start.trackers().contains_key(spec_vpn_of((start_va as int) as usize)));
                assert(pt0.trackers().contains_key(vpn));
            }
            let piece = vstd::slice::slice_subrange(data, start_va - ptr, tmp_end_va - ptr);
            let _ = self.page_table.write_bytes(vpn, tmp_start_offset, piece);
            proof {
                let pt1 = self.spec_page_table();
                lemma_contents_keep(self.areas(), pt0, pt1, self.spec_allocator());
                assert forall|a: int| start_va <= a < tmp_end_va implies #[trigger] spec_vpn_of(a as usize) == vpn
                    && spec_offset_of(a as usize) as int - tmp_start_offset == a - start_va by {
                    lemma_same_page(start_va, a as usize, base);
                }
                assert forall|a: int| ptr <= a < start_va implies #[trigger] spec_vpn_of(a as usize) != vpn by {
                    assert(a as int / 4096 < start_va as int / 4096) by (nonlinear_arith)
                        requires
                            start_va as int % 4096 == 0,
                            a < start_va,
                            a >= 0,
                    ;
                    lemma_distinct_pages(a as usize, start_va);
                }
                assert forall|i: int| 0 <= i < tmp_end_va - ptr implies #[trigger] va_byte(&pt1, ptr + i) == data@[i] by {
                    let a = ptr + i;
                    if a < start_va {
                        assert(spec_vpn_of(a as usize) != vpn);
                        assert(va_byte(&pt0, ptr + i) == data@[i]);
                        assert(pt1.trackers()[spec_vpn_of(a as usize)] == pt0.trackers()[spec_vpn_of(a as usize)]);
                    } else {
                        let k = a - start_va;
                        assert(spec_vpn_of(a as usize) == vpn);
                        assert(spec_offset_of(a as usize) == tmp_start_offset + k);
                        assert(pt1.trackers()[vpn]@ == pt0.trackers()[vpn]@.subrange(0, tmp_start_offset as int) + piece@
                            + pt0.trackers()[vpn]@.subrange(tmp_start_offset + piece@.len(), MEMORY_PAGE_BYTE_SIZE as int));
                        assert(piece@[k] == data@[i]);
                        pt0.lemma_tracker_wf(vpn);
                        assert(pt0.trackers()[vpn]@.len() == MEMORY_PAGE_BYTE_SIZE);
                        assert(0 <= k < piece@.len());
                        assert(pt1.trackers()[vpn]@[tmp_start_offset + k] == piece@[k]);
                    }
                }
                assert forall|v: usize| !page_touched(ptr as int, tmp_end_va as int, v) implies #[trigger] pt1.trackers()[v]
                    == pt_start.trackers()[v] by {
                    assert(spec_vpn_of(start_va as int as usize) == vpn);
                    assert(v != vpn);
                    if page_touched(ptr as int, start_va as int, v) {
                        let a = choose|a: int| ptr <= a < start_va && #[trigger] spec_vpn_of(a as usize) == v;
                        assert(page_touched(ptr as int, tmp_end_va as int, v));
                    }
                }
                assert forall|a: int|
                    0 <= a <= usize::MAX && ptr - 4096 < a < end_va + 4096 && !(ptr <= a < tmp_end_va) implies #[trigger] va_byte(
                        &pt1,
                        a,
                    ) == va_byte(&pt_start, a) by {
                    assert(va_byte(&pt0, a) == va_byte(&pt_start, a));
                    if spec_vpn_of(a as usize) == vpn {
                        if a < base {
                            assert(a as int / 4096 < start_va as int / 4096) by (nonlinear_arith)
                                requires
                                    base % 4096 == 0,
                                    base <= start_va < base + 4096,
                                    0 <= a < base,
                            ;
                            lemma_distinct_pages(a as usize, start_va);
                        } else if a >= base + 4096 {
                            assert(start_va as int / 4096 < a as int / 4096) by (nonlinear_arith)
                                requires
                                    base % 4096 == 0,
                                    base <= start_va < base + 4096,
                                    a >= base + 4096,
                            ;
                            lemma_distinct_pages(start_va, a as usize);
                        } else {
                            lemma_same_page(start_va, a as usize, base);
                            pt0.lemma_tracker_wf(vpn);
                            let o = spec_offset_of(a as usize) as int;
                            if a < start_va {
                                assert(o < tmp_start_offset);
                            } else {
                                assert(o >= tmp_start_offset + piece@.len());
                            }
                            assert(pt1.trackers()[vpn]@[o] == pt0.trackers()[vpn]@[o]);
                        }
                    } else {
                        assert(pt1.trackers()[spec_vpn_of(a as usize)] == pt0.trackers()[spec_vpn_of(a as usize)]);
                    }
                }
                if tmp_end_va < end_va {
                    assert(tmp_end_va as int % 4096 == 0) by (nonlinear_arith)
                        requires
                            tmp_end_va == base + 4096,
                            base % 4096 == 0,
                    ;
                }
            }
            start_va = tmp_end_va;
        }
        Ok(())
    }
}


/// What is written into a space is read back: once the bytes of the range from
/// `ptr` on are those of `data`, the bytes copied out of the range are `data`.
pub proof fn law_write_then_read(pt: &PageTable, ptr: usize, data: Seq<u8>)
    requires
        forall|i: int| 0 <= i < data.len() ==> #[trigger] va_byte(pt, ptr + i) == data[i],
    ensures
        Seq::new(data.len(), |i: int| va_byte(pt, ptr + i)) == data,
{
    assert(Seq::new(data.len(), |i: int| va_byte(pt, ptr + i)) =~= data);
}

} // verus!
