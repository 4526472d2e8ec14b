//! Areas: runs of virtual pages with the same permissions and mapping kind.
use vstd::prelude::*;
use core::ops::Range;
use crate::allocator::{BTreeSetFrameAllocator, LinkedListPageRangeAllocator};
use crate::configs::MEMORY_PAGE_BYTE_SIZE;
use crate::error::KernelError;
use crate::frame::zero_page;
use crate::page_table::{
    frames_for, index0, index1, spec_pte_new, vpn_key, PageTable, PageTableEntry, PageTableFlags,
    PPN_LIMIT, VPN_LIMIT,
};

verus! {

/// How the pages of an area reach physical memory.
#[derive(Clone, Copy, PartialEq, Eq, Structural, Debug)]
pub enum AreaMapping {
    /// Each page is mapped to the frame of the same number; no frame is allocated.
    Identical,
    /// Each page gets a frame of its own, allocated and released with the area.
    Framed,
}

/// The virtual page range `[start_vpn, end_vpn)` of an area.
pub struct PageRangeTracker {
    start_vpn: usize,
    end_vpn: usize,
}

impl PageRangeTracker {
    /// The first page of the range.
    pub closed spec fn spec_start(&self) -> usize {
        self.start_vpn
    }

    /// The page after the last page of the range.
    pub closed spec fn spec_end(&self) -> usize {
        self.end_vpn
    }

    fn new(start_vpn: usize, end_vpn: usize) -> (r: Self)
        ensures
            r.spec_start() == start_vpn,
            r.spec_end() == end_vpn,
    {
        Self { start_vpn, end_vpn }
    }

    /// The number of bytes of the pages in the range.
    pub fn byte_size(&self) -> (r: usize)
        requires
            self.spec_start() <= self.spec_end(),
            (self.spec_end() - self.spec_start()) * MEMORY_PAGE_BYTE_SIZE <= usize::MAX,
        ensures
            r == (self.spec_end() - self.spec_start()) * MEMORY_PAGE_BYTE_SIZE,
    {
        (self.end_vpn - self.start_vpn) * MEMORY_PAGE_BYTE_SIZE
    }

    /// The first page of the range.
    pub fn start_vpn(&self) -> (r: usize)
        ensures
            r == self.spec_start(),
    {
        self.start_vpn
    }

    /// The page after the last page of the range.
    pub fn end_vpn(&self) -> (r: usize)
        ensures
            r == self.spec_end(),
    {
        self.end_vpn
    }

    /// The pages of the range.
    pub fn page_range(&self) -> (r: Range<usize>)
        ensures
            r.start == self.spec_start(),
            r.end == self.spec_end(),
    {
        self.start_vpn..self.end_vpn
    }

    /// Whether page `vpn` is in the range.
    pub fn contain(&self, vpn: usize) -> (r: bool)
        ensures
            r == (self.spec_start() <= vpn && vpn < self.spec_end()),
    {
        self.start_vpn <= vpn && vpn < self.end_vpn
    }

    /// `VPNOutOfArea` unless page `vpn` is in the range.
    pub fn check(&self, vpn: usize) -> (r: Result<(), KernelError>)
        ensures
            r == if self.spec_start() <= vpn && vpn < self.spec_end() {
                Ok::<(), KernelError>(())
            } else {
                Err::<(), KernelError>(
                    KernelError::VPNOutOfArea { vpn, start: self.spec_start(), end: self.spec_end() },
                )
            },
    {
        if self.contain(vpn) {
            Ok(())
        } else {
            Err(KernelError::VPNOutOfArea { vpn, start: self.start_vpn, end: self.end_vpn })
        }
    }
}

/// The pages `[s, e)` are all free in `ra` and inside its range.
pub open spec fn range_free(ra: &LinkedListPageRangeAllocator, s: usize, e: usize) -> bool {
    &&& ra.start() <= s
    &&& s < e
    &&& e <= ra.end()
    &&& forall|v: usize| s <= v < e ==> !#[trigger] ra@.contains(v)
}

/// The frames needed to map the pages `[v, e)` one after the other, starting from
/// mappers that exist for the root entries `l1` and entry pairs `l2`, plus `per`
/// frames for each page's data.
pub open spec fn range_frames(l1: Set<int>, l2: Set<(int, int)>, v: int, e: int, per: int) -> int
    decreases e - v,
{
    if v >= e {
        0
    } else {
        let k = v % VPN_LIMIT as int;
        frames_for(l1, l2, k as usize) + per + range_frames(
            l1.insert(index0(k)),
            l2.insert((index0(k), index1(k))),
            v + 1,
            e,
            per,
        )
    }
}

/// The root entries and entry pairs that lead to mappers once the pages `[v, e)`
/// are mapped one after the other, starting from `l1` and `l2`.
pub open spec fn range_sets(l1: Set<int>, l2: Set<(int, int)>, v: int, e: int) -> (Set<int>, Set<(int, int)>)
    decreases e - v,
{
    if v >= e {
        (l1, l2)
    } else {
        let k = v % VPN_LIMIT as int;
        range_sets(l1.insert(index0(k)), l2.insert((index0(k), index1(k))), v + 1, e)
    }
}

/// Page `k` is the key of some page in `[s, e)`.
pub open spec fn key_in_range(k: usize, s: usize, e: usize) -> bool {
    exists|u: usize| s <= u < e && #[trigger] vpn_key(u) == k
}

/// The frames a page gets per data frame under `mapping`.
pub open spec fn data_frames(mapping: AreaMapping) -> int {
    if mapping == AreaMapping::Framed {
        1
    } else {
        0
    }
}

/// Mapping `[s, e)` with `flags` and `mapping` into `pt` cannot fail: the pages have
/// distinct keys that are not mapped, framed pages have permissions and no recorded
/// data frame, identically mapped pages are valid frame numbers, and the frames for
/// all mappers and data frames are there.
pub open spec fn can_map(
    pt: &PageTable,
    frames: &BTreeSetFrameAllocator,
    s: usize,
    e: usize,
    flags: PageTableFlags,
    mapping: AreaMapping,
) -> bool {
    &&& e - s <= VPN_LIMIT
    &&& forall|v: usize| s <= v < e ==> !#[trigger] pt@.contains_key(vpn_key(v))
    &&& mapping == AreaMapping::Framed ==> flags.bits != 0
    &&& mapping == AreaMapping::Framed ==> forall|v: usize|
        s <= v < e ==> !#[trigger] pt.trackers().contains_key(v)
    &&& mapping == AreaMapping::Identical ==> e <= PPN_LIMIT
    &&& frames.available() >= range_frames(pt.l1_set(), pt.l2_set(), s as int, e as int, data_frames(mapping))
}

/// Page `v` cannot be mapped under `mapping`: its entry is there already, or, for a
/// framed page, its data frame is.
pub open spec fn page_taken(pt: &PageTable, v: usize, mapping: AreaMapping) -> bool {
    pt@.contains_key(vpn_key(v)) || (mapping == AreaMapping::Framed && pt.trackers().contains_key(v))
}

/// `v` is the first taken page of `[s, e)`.
pub open spec fn first_taken(pt: &PageTable, s: usize, e: usize, mapping: AreaMapping, v: usize) -> bool {
    &&& s <= v < e
    &&& page_taken(pt, v, mapping)
    &&& forall|u: usize| s <= u < v ==> !#[trigger] page_taken(pt, u, mapping)
}

/// Why mapping `[s, e)` with `flags` and `mapping` into `pt` would fail, in this
/// order: framed pages without permissions, the first taken page, too few frames.
pub open spec fn mapping_error(
    pt: &PageTable,
    frames: &BTreeSetFrameAllocator,
    s: usize,
    e: usize,
    flags: PageTableFlags,
    mapping: AreaMapping,
) -> Option<KernelError> {
    if mapping == AreaMapping::Framed && flags.bits == 0 {
        Some(KernelError::InvaidPageTablePerm(0))
    } else if exists|v: usize| first_taken(pt, s, e, mapping, v) {
        Some(KernelError::VPNAlreadyMapped(choose|v: usize| first_taken(pt, s, e, mapping, v)))
    } else if frames.available() < range_frames(pt.l1_set(), pt.l2_set(), s as int, e as int, data_frames(mapping)) {
        Some(KernelError::FrameExhausted)
    } else {
        None
    }
}

/// The first taken page of `[s, e)`, if there is one.
fn find_taken(pt: &PageTable, s: usize, e: usize, mapping: AreaMapping) -> (r: Option<usize>)
    requires
        pt.wf(),
    ensures
        r matches Some(v) ==> first_taken(pt, s, e, mapping, v),
        r is None ==> forall|u: usize| s <= u < e ==> !#[trigger] page_taken(pt, u, mapping),
{
    let mut v = s;
    while v < e
        invariant
            pt.wf(),
            s <= v,
            forall|u: usize| s <= u < v ==> !#[trigger] page_taken(pt, u, mapping),
        decreases e - v,
    {
        let mapped = pt.translate_ppn_with(v).is_some();
        let framed = match mapping {
            AreaMapping::Framed => pt.get_tracker_with(v).is_ok(),
            AreaMapping::Identical => false,
        };
        if mapped || framed {
            return Some(v);
        }
        v = v + 1;
    }
    None
}

/// Checks whether `[s, e)` can be mapped with `flags` and `mapping` into `pt`, and
/// says why not.
fn check_mapping(
    pt: &PageTable,
    frames: &BTreeSetFrameAllocator,
    s: usize,
    e: usize,
    flags: PageTableFlags,
    mapping: AreaMapping,
) -> (r: Option<KernelError>)
    requires
        pt.wf(),
        s < e,
        e - s <= VPN_LIMIT,
        mapping == AreaMapping::Identical ==> e <= PPN_LIMIT,
    ensures
        r == mapping_error(pt, frames, s, e, flags, mapping),
        r is None <==> can_map(pt, frames, s, e, flags, mapping),
{
    if flags.bits == 0 {
        if let AreaMapping::Framed = mapping {
            return Some(KernelError::InvaidPageTablePerm(0));
        }
    }
    if let Some(v) = find_taken(pt, s, e, mapping) {
        proof {
            let w = choose|w: usize| first_taken(pt, s, e, mapping, w);
            assert(first_taken(pt, s, e, mapping, w));
            if w < v {
                assert(!page_taken(pt, w, mapping));
            }
            if v < w {
                assert(!page_taken(pt, v, mapping));
            }
        }
        return Some(KernelError::VPNAlreadyMapped(v));
    }
    proof {
        assert forall|w: usize| !first_taken(pt, s, e, mapping, w) by {
            if s <= w < e {
                assert(!page_taken(pt, w, mapping));
            }
        }
        assert forall|v: usize| s <= v < e implies !#[trigger] pt@.contains_key(vpn_key(v)) by {
            assert(!page_taken(pt, v, mapping));
        }
        if mapping == AreaMapping::Framed {
            assert forall|v: usize| s <= v < e implies !#[trigger] pt.trackers().contains_key(v) by {
                assert(!page_taken(pt, v, mapping));
            }
        }
    }
    let per: u128 = match mapping {
        AreaMapping::Framed => 1,
        AreaMapping::Identical => 0,
    };
    if frames.free_frames() < frames_to_map(pt, s, e, per) {
        return Some(KernelError::FrameExhausted);
    }
    None
}

pub(crate) proof fn lemma_range_frames_nonneg(l1: Set<int>, l2: Set<(int, int)>, v: int, e: int, per: int)
    requires
        per >= 0,
    ensures
        range_frames(l1, l2, v, e, per) >= 0,
    decreases e - v,
{
    if v < e {
        let k = v % VPN_LIMIT as int;
        lemma_range_frames_nonneg(l1.insert(index0(k)), l2.insert((index0(k), index1(k))), v + 1, e, per);
    }
}

/// Each page needs at most two new mappers and `per` data frames.
pub proof fn lemma_range_frames_bound(l1: Set<int>, l2: Set<(int, int)>, v: int, e: int, per: int)
    requires
        per >= 0,
        v <= e,
    ensures
        0 <= range_frames(l1, l2, v, e, per) <= (2 + per) * (e - v),
    decreases e - v,
{
    if v < e {
        let k = v % VPN_LIMIT as int;
        lemma_range_frames_bound(l1.insert(index0(k)), l2.insert((index0(k), index1(k))), v + 1, e, per);
        assert((2 + per) * (e - v) == (2 + per) * (e - (v + 1)) + (2 + per)) by (nonlinear_arith);
    }
}

/// One step of `range_frames`: the first page, then the rest.
pub(crate) proof fn lemma_range_frames_step(l1: Set<int>, l2: Set<(int, int)>, v: usize, e: usize, per: int)
    requires
        v < e,
        per >= 0,
    ensures
        range_frames(l1, l2, v as int, e as int, per) == frames_for(l1, l2, vpn_key(v)) + per
            + range_frames(
            l1.insert(index0(vpn_key(v) as int)),
            l2.insert((index0(vpn_key(v) as int), index1(vpn_key(v) as int))),
            v + 1,
            e as int,
            per,
        ),
        range_frames(
            l1.insert(index0(vpn_key(v) as int)),
            l2.insert((index0(vpn_key(v) as int), index1(vpn_key(v) as int))),
            v + 1,
            e as int,
            per,
        ) >= 0,
{
    let k = v as int % VPN_LIMIT as int;
    assert(vpn_key(v) as int == k);
    lemma_range_frames_nonneg(l1.insert(index0(k)), l2.insert((index0(k), index1(k))), v + 1, e as int, per);
}

proof fn lemma_keys_distinct(u1: usize, u2: usize)
    requires
        u1 < u2,
        u2 - u1 < VPN_LIMIT,
    ensures
        vpn_key(u1) != vpn_key(u2),
{
    let x = u1 as u64;
    let y = u2 as u64;
    assert(x % 0x800_0000 != y % 0x800_0000) by (bit_vector)
        requires
            x < y,
            y - x < 0x800_0000,
    ;
}

/// A contiguous run of virtual pages with the same permissions and mapping kind.
pub struct Area {
    flags: PageTableFlags,
    area_mapping: AreaMapping,
    page_range_tracker: PageRangeTracker,
}

impl Area {
    /// The first page of the area.
    pub closed spec fn spec_start(&self) -> usize {
        self.page_range_tracker.spec_start()
    }

    /// The page after the last page of the area.
    pub closed spec fn spec_end(&self) -> usize {
        self.page_range_tracker.spec_end()
    }

    /// The permissions of the area's pages.
    pub closed spec fn spec_flags(&self) -> PageTableFlags {
        self.flags
    }

    /// How the area's pages reach physical memory.
    pub closed spec fn spec_mapping(&self) -> AreaMapping {
        self.area_mapping
    }

    /// The entry page `v` of the area has in `pt`.
    pub open spec fn entry_of(&self, pt: &PageTable, v: usize) -> PageTableEntry {
        spec_pte_new(
            if self.spec_mapping() == AreaMapping::Identical {
                v
            } else {
                pt.trackers()[v].spec_ppn()
            },
            self.spec_flags().bits | 1u8,
        )
    }

    /// Every page of the area is mapped in `pt` as the area says, and framed pages
    /// have their data frame.
    pub open spec fn mapped_in(&self, pt: &PageTable) -> bool {
        &&& self.spec_start() < self.spec_end()
        &&& self.spec_end() - self.spec_start() <= VPN_LIMIT
        &&& forall|v: usize|
            self.spec_start() <= v < self.spec_end() ==> {
                &&& #[trigger] pt@.contains_key(vpn_key(v))
                &&& pt@[vpn_key(v)] == self.entry_of(pt, v)
                &&& self.spec_mapping() == AreaMapping::Framed ==> pt.trackers().contains_key(v)
            }
    }

    /// The permissions of the area's pages.
    pub fn flags(&self) -> (r: PageTableFlags)
        ensures
            r == self.spec_flags(),
    {
        self.flags
    }

    /// How the pages are mapped.
    pub fn mapping(&self) -> (r: AreaMapping)
        ensures
            r == self.spec_mapping(),
    {
        self.area_mapping
    }

    /// The range of the area: its first page and the page after its last one.
    pub fn range(&self) -> (r: (usize, usize))
        ensures
            r == (self.spec_start(), self.spec_end()),
    {
        (self.page_range_tracker.start_vpn(), self.page_range_tracker.end_vpn())
    }
}

} // verus!

verus! {

impl Area {
    /// Maps page `vpn` of the area: identically, or to a new cleared data frame.
    fn map_one(&self, vpn: usize, pt: &mut PageTable, frames: &mut BTreeSetFrameAllocator) -> (r: Result<
        usize,
        KernelError,
    >)
        requires
            old(pt).wf(),
            old(pt).frames_in(&*old(frames)),
            self.spec_start() <= vpn < self.spec_end(),
            !old(pt)@.contains_key(vpn_key(vpn)),
            self.spec_mapping() == AreaMapping::Framed ==> self.spec_flags().bits != 0
                && !old(pt).trackers().contains_key(vpn),
            self.spec_mapping() == AreaMapping::Identical ==> vpn < PPN_LIMIT,
            old(frames).available() >= old(pt).needed_frames(vpn_key(vpn)) + data_frames(self.spec_mapping()),
        ensures
            r is Ok,
            final(pt).wf(),
            final(pt).frames_in(&*final(frames)),
            PageTable::frames_kept(&*old(pt), &*final(pt), &*old(frames), &*final(frames)),
            forall|f: usize| #[trigger] old(pt).owns(f) ==> final(pt).owns(f),
            forall|f: usize| #[trigger] final(pt).owns(f) && !old(pt).owns(f) ==> !old(frames).handed_out(f),
            final(pt).spec_asid() == old(pt).spec_asid(),
            final(pt).spec_root_ppn() == old(pt).spec_root_ppn(),
            final(pt)@ == old(pt)@.insert(vpn_key(vpn), self.entry_of(&*final(pt), vpn)),
            final(pt).l1_set() == old(pt).l1_set().insert(index0(vpn_key(vpn) as int)),
            final(pt).l2_set() == old(pt).l2_set().insert(
                (index0(vpn_key(vpn) as int), index1(vpn_key(vpn) as int)),
            ),
            final(frames).available() == old(frames).available() - old(pt).needed_frames(vpn_key(vpn))
                - data_frames(self.spec_mapping()),
            self.spec_mapping() == AreaMapping::Identical ==> final(pt).trackers() == old(pt).trackers(),
            self.spec_mapping() == AreaMapping::Framed ==> {
                &&& final(pt).trackers() == old(pt).trackers().insert(vpn, final(pt).trackers()[vpn])
                &&& final(pt).trackers()[vpn]@ == zero_page()
            },
    {
        self.page_range_tracker.check(vpn)?;
        let ppn = match self.area_mapping {
            AreaMapping::Identical => {
                pt.map_without_alloc(vpn, vpn, self.flags, frames)?;
                vpn
            },
            AreaMapping::Framed => pt.map(vpn, self.flags, frames)?,
        };
        Ok(ppn)
    }

    /// After mapping the pages `[start, vpn)` of the area, starting from `p_old` and
    /// `f_old`: those pages are mapped as the area says, the rest of the area is
    /// still free, nothing else changed and the frames left cover the rest.
    spec fn map_progress(
        &self,
        p_old: PageTable,
        f_old: BTreeSetFrameAllocator,
        pt: PageTable,
        frames: BTreeSetFrameAllocator,
        vpn: usize,
    ) -> bool {
        &&& self.spec_start() <= vpn <= self.spec_end()
        &&& self.progress_frames(p_old, f_old, pt, frames, vpn)
        &&& self.progress_keys(p_old, pt, vpn)
        &&& self.progress_trackers(p_old, pt, vpn)
    }

    /// The table stays well formed within the allocator, its frames only grow, and the
    /// frames left cover the pages `[vpn, end)`.
    #[verifier::opaque]
    spec fn progress_frames(
        &self,
        p_old: PageTable,
        f_old: BTreeSetFrameAllocator,
        pt: PageTable,
        frames: BTreeSetFrameAllocator,
        vpn: usize,
    ) -> bool {
        &&& pt.wf()
        &&& pt.frames_in(&frames)
        &&& PageTable::frames_kept(&p_old, &pt, &f_old, &frames)
        &&& forall|f: usize| #[trigger] p_old.owns(f) ==> pt.owns(f)
        &&& forall|f: usize| #[trigger] pt.owns(f) && !p_old.owns(f) ==> !f_old.handed_out(f)
        &&& pt.spec_asid() == p_old.spec_asid()
        &&& pt.spec_root_ppn() == p_old.spec_root_ppn()
        &&& frames.available() >= range_frames(
            pt.l1_set(),
            pt.l2_set(),
            vpn as int,
            self.spec_end() as int,
            data_frames(self.spec_mapping()),
        )
        &&& range_sets(pt.l1_set(), pt.l2_set(), vpn as int, self.spec_end() as int) == range_sets(
            p_old.l1_set(),
            p_old.l2_set(),
            self.spec_start() as int,
            self.spec_end() as int,
        )
        &&& f_old.available() - frames.available() + range_frames(
            pt.l1_set(),
            pt.l2_set(),
            vpn as int,
            self.spec_end() as int,
            data_frames(self.spec_mapping()),
        ) == range_frames(
            p_old.l1_set(),
            p_old.l2_set(),
            self.spec_start() as int,
            self.spec_end() as int,
            data_frames(self.spec_mapping()),
        )
    }

    /// The pages `[start, vpn)` are mapped as the area says, `[vpn, end)` are not
    /// mapped, and other keys are as in `p_old`.
    #[verifier::opaque]
    spec fn progress_keys(&self, p_old: PageTable, pt: PageTable, vpn: usize) -> bool {
        let start = self.spec_start();
        let end = self.spec_end();
        &&& forall|u: usize| vpn <= u < end ==> !#[trigger] pt@.contains_key(vpn_key(u))
        &&& forall|u: usize|
            start <= u < vpn ==> #[trigger] pt@.contains_key(vpn_key(u)) && pt@[vpn_key(u)] == self.entry_of(
                &pt,
                u,
            )
        &&& forall|k: usize|
            !key_in_range(k, start, vpn) ==> (#[trigger] pt@.contains_key(k) == p_old@.contains_key(k)
                && (p_old@.contains_key(k) ==> pt@[k] == p_old@[k]))
    }

    /// Framed pages `[start, vpn)` have cleared data frames, `[vpn, end)` have none,
    /// other pages keep theirs.
    #[verifier::opaque]
    spec fn progress_trackers(&self, p_old: PageTable, pt: PageTable, vpn: usize) -> bool {
        let start = self.spec_start();
        let end = self.spec_end();
        &&& self.spec_mapping() == AreaMapping::Framed ==> forall|u: usize|
            vpn <= u < end ==> !#[trigger] pt.trackers().contains_key(u)
        &&& self.spec_mapping() == AreaMapping::Framed ==> forall|u: usize|
            start <= u < vpn ==> #[trigger] pt.trackers().contains_key(u) && pt.trackers()[u]@ == zero_page()
        &&& forall|w: usize|
            !(start <= w < vpn) ==> (#[trigger] pt.trackers().contains_key(w)
                == p_old.trackers().contains_key(w) && (p_old.trackers().contains_key(w)
                ==> pt.trackers()[w] == p_old.trackers()[w]))
        &&& self.spec_mapping() == AreaMapping::Identical ==> pt.trackers() == p_old.trackers()
    }

    proof fn lemma_map_start(&self, pt: PageTable, frames: BTreeSetFrameAllocator)
        requires
            pt.wf(),
            pt.frames_in(&frames),
            self.spec_start() < self.spec_end(),
            can_map(&pt, &frames, self.spec_start(), self.spec_end(), self.spec_flags(), self.spec_mapping()),
        ensures
            self.map_progress(pt, frames, pt, frames, self.spec_start()),
    {
        reveal(Area::progress_frames);
        reveal(Area::progress_keys);
        reveal(Area::progress_trackers);
        assert forall|k: usize| !key_in_range(k, self.spec_start(), self.spec_start()) implies (
        #[trigger] pt@.contains_key(k) == pt@.contains_key(k)) by {}
    }

    /// At the end, the whole area is mapped.
    #[verifier::spinoff_prover]
    proof fn lemma_map_end(&self, p_old: PageTable, f_old: BTreeSetFrameAllocator, pt: PageTable, frames: BTreeSetFrameAllocator)
        requires
            self.map_progress(p_old, f_old, pt, frames, self.spec_end()),
            self.spec_start() < self.spec_end(),
            self.spec_end() - self.spec_start() <= VPN_LIMIT,
        ensures
            pt.wf(),
            pt.frames_in(&frames),
            PageTable::frames_kept(&p_old, &pt, &f_old, &frames),
            forall|f: usize| #[trigger] p_old.owns(f) ==> pt.owns(f),
            forall|f: usize| #[trigger] pt.owns(f) && !p_old.owns(f) ==> !f_old.handed_out(f),
            pt.spec_asid() == p_old.spec_asid(),
            pt.spec_root_ppn() == p_old.spec_root_ppn(),
            self.mapped_in(&pt),
            forall|k: usize| !key_in_range(k, self.spec_start(), self.spec_end()) ==> (#[trigger] pt@.contains_key(k)
                == p_old@.contains_key(k) && (p_old@.contains_key(k) ==> pt@[k] == p_old@[k])),
            forall|w: usize| !(self.spec_start() <= w < self.spec_end()) ==> (#[trigger] pt.trackers().contains_key(w)
                == p_old.trackers().contains_key(w) && (p_old.trackers().contains_key(w)
                ==> pt.trackers()[w] == p_old.trackers()[w])),
            self.spec_mapping() == AreaMapping::Identical ==> pt.trackers() == p_old.trackers(),
            self.spec_mapping() == AreaMapping::Framed ==> forall|v: usize|
                self.spec_start() <= v < self.spec_end() ==> #[trigger] pt.trackers()[v]@ == zero_page(),
            frames.available() == f_old.available() - range_frames(
                p_old.l1_set(),
                p_old.l2_set(),
                self.spec_start() as int,
                self.spec_end() as int,
                data_frames(self.spec_mapping()),
            ),
            (pt.l1_set(), pt.l2_set()) == range_sets(
                p_old.l1_set(),
                p_old.l2_set(),
                self.spec_start() as int,
                self.spec_end() as int,
            ),
    {
        reveal(Area::progress_frames);
        reveal(Area::progress_keys);
        reveal(Area::progress_trackers);
        assert forall|v: usize| self.spec_start() <= v < self.spec_end() implies {
            &&& #[trigger] pt@.contains_key(vpn_key(v))
            &&& pt@[vpn_key(v)] == self.entry_of(&pt, v)
            &&& self.spec_mapping() == AreaMapping::Framed ==> pt.trackers().contains_key(v)
        } by {
            assert(self.spec_start() <= v < self.spec_end());
            assert(pt@.contains_key(vpn_key(v)));
            assert(pt@[vpn_key(v)] == self.entry_of(&pt, v));
            if self.spec_mapping() == AreaMapping::Framed {
                assert(pt.trackers().contains_key(v));
            }
        }
        assert forall|v: usize| self.spec_start() <= v < self.spec_end() implies (self.spec_mapping()
            == AreaMapping::Framed ==> #[trigger] pt.trackers()[v]@ == zero_page()) by {
            if self.spec_mapping() == AreaMapping::Framed {
                assert(pt.trackers().contains_key(v));
            }
        }
        assert(self.mapped_in(&pt));
    }

    proof fn lemma_step_frames(
        &self,
        p_old: PageTable,
        f_old: BTreeSetFrameAllocator,
        p0: PageTable,
        f0: BTreeSetFrameAllocator,
        p1: PageTable,
        f1: BTreeSetFrameAllocator,
        vpn: usize,
    )
        requires
            self.progress_frames(p_old, f_old, p0, f0, vpn),
            vpn < self.spec_end(),
            p1.wf(),
            p1.frames_in(&f1),
            PageTable::frames_kept(&p0, &p1, &f0, &f1),
            forall|f: usize| #[trigger] p0.owns(f) ==> p1.owns(f),
            forall|f: usize| #[trigger] p1.owns(f) && !p0.owns(f) ==> !f0.handed_out(f),
            p1.spec_asid() == p0.spec_asid(),
            p1.spec_root_ppn() == p0.spec_root_ppn(),
            p1.l1_set() == p0.l1_set().insert(index0(vpn_key(vpn) as int)),
            p1.l2_set() == p0.l2_set().insert((index0(vpn_key(vpn) as int), index1(vpn_key(vpn) as int))),
            f1.available() == f0.available() - p0.needed_frames(vpn_key(vpn)) - data_frames(
                self.spec_mapping(),
            ),
        ensures
            self.progress_frames(p_old, f_old, p1, f1, (vpn + 1) as usize),
    {
        reveal(Area::progress_frames);
        lemma_range_frames_step(p0.l1_set(), p0.l2_set(), vpn, self.spec_end(), data_frames(self.spec_mapping()));
        assert(vpn_key(vpn) as int == vpn as int % VPN_LIMIT as int);
        assert(range_sets(p0.l1_set(), p0.l2_set(), vpn as int, self.spec_end() as int) == range_sets(
            p1.l1_set(),
            p1.l2_set(),
            vpn + 1,
            self.spec_end() as int,
        ));
        assert forall|f: usize| !p_old.owns(f) && !p1.owns(f) implies #[trigger] f1.handed_out(f) == f_old.handed_out(
            f,
        ) by {
            assert(!p0.owns(f));
        }
        assert forall|f: usize| #[trigger] p1.owns(f) && !p_old.owns(f) implies !f_old.handed_out(f) by {
            if p0.owns(f) {
            } else {
                assert(!f0.handed_out(f));
                assert(!p1.owns(f) || !p0.owns(f));
            }
        }
    }

    proof fn lemma_step_keys(&self, p_old: PageTable, p0: PageTable, p1: PageTable, vpn: usize)
        requires
            self.progress_keys(p_old, p0, vpn),
            self.spec_start() <= vpn < self.spec_end(),
            self.spec_end() - self.spec_start() <= VPN_LIMIT,
            p1@ == p0@.insert(vpn_key(vpn), self.entry_of(&p1, vpn)),
            forall|u: usize| self.spec_start() <= u < vpn ==> self.entry_of(&p1, u) == #[trigger] self.entry_of(&p0, u),
        ensures
            self.progress_keys(p_old, p1, (vpn + 1) as usize),
    {
        reveal(Area::progress_keys);
        let start = self.spec_start();
        let end = self.spec_end();
        let k = vpn_key(vpn);
        let v1 = (vpn + 1) as usize;
        assert(v1 == vpn + 1);
        assert forall|u: usize| start <= u < vpn implies vpn_key(u) != k by {
            lemma_keys_distinct(u, vpn);
        }
        assert forall|u: usize| vpn < u < end implies vpn_key(u) != k by {
            lemma_keys_distinct(vpn, u);
        }
        assert forall|kk: usize| !key_in_range(kk, start, v1) implies !key_in_range(kk, start, vpn)
            && kk != k by {
            if key_in_range(kk, start, vpn) {
                let u = choose|u: usize| start <= u < vpn && #[trigger] vpn_key(u) == kk;
                assert(start <= u < v1 && vpn_key(u) == kk);
            }
            if kk == k {
                assert(start <= vpn < v1 && vpn_key(vpn) == kk);
            }
        }
        assert forall|u: usize| start <= u < v1 implies #[trigger] p1@.contains_key(vpn_key(u)) && p1@[vpn_key(
            u,
        )] == self.entry_of(&p1, u) by {
            if u < vpn {
                assert(p0@.contains_key(vpn_key(u)));
                assert(self.entry_of(&p1, u) == self.entry_of(&p0, u));
            }
        }
        assert forall|u: usize| v1 <= u < end implies !#[trigger] p1@.contains_key(vpn_key(u)) by {
            assert(!p0@.contains_key(vpn_key(u)));
        }
        assert forall|kk: usize| !key_in_range(kk, start, v1) implies (
        #[trigger] p1@.contains_key(kk) == p_old@.contains_key(kk) && (p_old@.contains_key(kk) ==> p1@[kk]
            == p_old@[kk])) by {
            assert(!key_in_range(kk, start, vpn) && kk != k);
            assert(p0@.contains_key(kk) == p_old@.contains_key(kk));
        }
    }

    proof fn lemma_step_trackers(&self, p_old: PageTable, p0: PageTable, p1: PageTable, vpn: usize)
        requires
            self.progress_trackers(p_old, p0, vpn),
            self.spec_start() <= vpn < self.spec_end(),
            self.spec_mapping() == AreaMapping::Identical ==> p1.trackers() == p0.trackers(),
            self.spec_mapping() == AreaMapping::Framed ==> {
                &&& p1.trackers() == p0.trackers().insert(vpn, p1.trackers()[vpn])
                &&& p1.trackers()[vpn]@ == zero_page()
            },
        ensures
            self.progress_trackers(p_old, p1, (vpn + 1) as usize),
            forall|u: usize| self.spec_start() <= u < vpn ==> self.entry_of(&p1, u) == #[trigger] self.entry_of(&p0, u),
    {
        reveal(Area::progress_trackers);
        let start = self.spec_start();
        let v1 = (vpn + 1) as usize;
        assert(v1 == vpn + 1);
        assert forall|u: usize| start <= u < vpn implies self.entry_of(&p1, u) == #[trigger] self.entry_of(&p0, u) by {
            if self.spec_mapping() == AreaMapping::Framed {
                assert(p0.trackers().contains_key(u));
                assert(p1.trackers()[u] == p0.trackers()[u]);
            }
        }
        let end = self.spec_end();
        if self.spec_mapping() == AreaMapping::Framed {
            assert forall|u: usize| start <= u < v1 implies #[trigger] p1.trackers().contains_key(u)
                && p1.trackers()[u]@ == zero_page() by {
                if u < vpn {
                    assert(p0.trackers().contains_key(u));
                }
            }
            assert forall|u: usize| v1 <= u < end implies !#[trigger] p1.trackers().contains_key(u) by {
                assert(!p0.trackers().contains_key(u));
            }
        }
        assert forall|w: usize| !(start <= w < v1) implies (#[trigger] p1.trackers().contains_key(w)
            == p_old.trackers().contains_key(w) && (p_old.trackers().contains_key(w) ==> p1.trackers()[w]
            == p_old.trackers()[w])) by {
            assert(p0.trackers().contains_key(w) == p_old.trackers().contains_key(w));
            assert(w != vpn);
        }
    }

    /// Maps every page of the area.
    fn map(&self, pt: &mut PageTable, frames: &mut BTreeSetFrameAllocator) -> (r: Result<(), KernelError>)
        requires
            old(pt).wf(),
            old(pt).frames_in(&*old(frames)),
            self.spec_start() < self.spec_end(),
            can_map(&*old(pt), &*old(frames), self.spec_start(), self.spec_end(), self.spec_flags(), self.spec_mapping()),
        ensures
            r is Ok,
            final(pt).wf(),
            final(pt).frames_in(&*final(frames)),
            PageTable::frames_kept(&*old(pt), &*final(pt), &*old(frames), &*final(frames)),
            forall|f: usize| #[trigger] old(pt).owns(f) ==> final(pt).owns(f),
            forall|f: usize| #[trigger] final(pt).owns(f) && !old(pt).owns(f) ==> !old(frames).handed_out(f),
            final(pt).spec_asid() == old(pt).spec_asid(),
            final(pt).spec_root_ppn() == old(pt).spec_root_ppn(),
            self.mapped_in(&*final(pt)),
            forall|k: usize| !key_in_range(k, self.spec_start(), self.spec_end()) ==> (#[trigger] final(pt)@.contains_key(k)
                == old(pt)@.contains_key(k) && (old(pt)@.contains_key(k) ==> final(pt)@[k] == old(pt)@[k])),
            forall|w: usize| !(self.spec_start() <= w < self.spec_end()) ==> (#[trigger] final(pt).trackers().contains_key(w)
                == old(pt).trackers().contains_key(w) && (old(pt).trackers().contains_key(w)
                ==> final(pt).trackers()[w] == old(pt).trackers()[w])),
            self.spec_mapping() == AreaMapping::Identical ==> final(pt).trackers() == old(pt).trackers(),
            self.spec_mapping() == AreaMapping::Framed ==> forall|v: usize|
                self.spec_start() <= v < self.spec_end() ==> #[trigger] final(pt).trackers()[v]@ == zero_page(),
            final(frames).available() == old(frames).available() - range_frames(
                old(pt).l1_set(),
                old(pt).l2_set(),
                self.spec_start() as int,
                self.spec_end() as int,
                data_frames(self.spec_mapping()),
            ),
            (final(pt).l1_set(), final(pt).l2_set()) == range_sets(
                old(pt).l1_set(),
                old(pt).l2_set(),
                self.spec_start() as int,
                self.spec_end() as int,
            ),
    {
        let start = self.page_range_tracker.start_vpn();
        let end = self.page_range_tracker.end_vpn();
        let mut vpn = start;
        proof {
            self.lemma_map_start(*pt, *frames);
        }
        while vpn < end
            invariant
                start == self.spec_start(),
                end == self.spec_end(),
                start < end,
                end - start <= VPN_LIMIT,
                self.spec_mapping() == AreaMapping::Framed ==> self.spec_flags().bits != 0,
                self.spec_mapping() == AreaMapping::Identical ==> end <= PPN_LIMIT,
                self.map_progress(*old(pt), *old(frames), *pt, *frames, vpn),
            decreases end - vpn,
        {
            let ghost p0 = *pt;
            let ghost f0 = *frames;
            proof {
                reveal(Area::progress_frames);
                reveal(Area::progress_keys);
                reveal(Area::progress_trackers);
                lemma_range_frames_step(pt.l1_set(), pt.l2_set(), vpn, end, data_frames(self.spec_mapping()));
                assert(!pt@.contains_key(vpn_key(vpn)));
                assert(self.spec_mapping() == AreaMapping::Framed ==> !pt.trackers().contains_key(vpn));
            }
            let r = self.map_one(vpn, pt, frames);
            proof {
                self.lemma_step_frames(*old(pt), *old(frames), p0, f0, *pt, *frames, vpn);
                self.lemma_step_trackers(*old(pt), p0, *pt, vpn);
                self.lemma_step_keys(*old(pt), p0, *pt, vpn);
            }
            vpn = vpn + 1;
        }
        proof {
            self.lemma_map_end(*old(pt), *old(frames), *pt, *frames);
        }
        Ok(())
    }
}

} // verus!

verus! {

impl Area {
    /// Removes the mapping of page `vpn` of the area; a framed page gives its data frame
    /// back. Returns the frame the page was mapped to.
    fn unmap_one(&self, vpn: usize, pt: &mut PageTable, frames: &mut BTreeSetFrameAllocator) -> (r: Result<
        usize,
        KernelError,
    >)
        requires
            old(pt).wf(),
            old(pt).frames_in(&*old(frames)),
            self.spec_start() <= vpn < self.spec_end(),
            old(pt)@.contains_key(vpn_key(vpn)),
            self.spec_mapping() == AreaMapping::Framed ==> old(pt).trackers().contains_key(vpn),
        ensures
            r is Ok,
            final(pt).wf(),
            final(pt).frames_in(&*final(frames)),
            PageTable::frames_kept(&*old(pt), &*final(pt), &*old(frames), &*final(frames)),
            forall|f: usize| #[trigger] final(pt).owns(f) ==> old(pt).owns(f),
            final(pt).spec_asid() == old(pt).spec_asid(),
            final(pt).spec_root_ppn() == old(pt).spec_root_ppn(),
            final(pt)@ == old(pt)@.remove(vpn_key(vpn)),
            self.spec_mapping() == AreaMapping::Identical ==> final(pt).trackers() == old(pt).trackers(),
            self.spec_mapping() == AreaMapping::Framed ==> final(pt).trackers() == old(pt).trackers().remove(vpn)
                && !final(frames).handed_out(old(pt).trackers()[vpn].spec_ppn()),
    {
        self.page_range_tracker.check(vpn)?;
        let ppn = match self.area_mapping {
            AreaMapping::Identical => {
                pt.unmap_without_dealloc(vpn, frames)?;
                vpn
            },
            AreaMapping::Framed => pt.unmap(vpn, frames)?,
        };
        Ok(ppn)
    }

    /// The table stays well formed within the allocator and only gives frames up.
    #[verifier::opaque]
    spec fn unmap_frames(
        &self,
        p_old: PageTable,
        f_old: BTreeSetFrameAllocator,
        pt: PageTable,
        frames: BTreeSetFrameAllocator,
    ) -> bool {
        &&& pt.wf()
        &&& pt.frames_in(&frames)
        &&& PageTable::frames_kept(&p_old, &pt, &f_old, &frames)
        &&& forall|f: usize| #[trigger] pt.owns(f) ==> p_old.owns(f)
        &&& pt.spec_asid() == p_old.spec_asid()
        &&& pt.spec_root_ppn() == p_old.spec_root_ppn()
    }

    /// The pages `[start, vpn)` are unmapped, every other key is as in `p_old`.
    #[verifier::opaque]
    spec fn unmap_keys(&self, p_old: PageTable, pt: PageTable, vpn: usize) -> bool {
        let start = self.spec_start();
        &&& forall|u: usize| start <= u < vpn ==> !#[trigger] pt@.contains_key(vpn_key(u))
        &&& forall|k: usize|
            !key_in_range(k, start, vpn) ==> (#[trigger] pt@.contains_key(k) == p_old@.contains_key(k)
                && (p_old@.contains_key(k) ==> pt@[k] == p_old@[k]))
    }

    /// Framed pages `[start, vpn)` have no data frame any more and theirs went back;
    /// the other data frames are as in `p_old`.
    #[verifier::opaque]
    spec fn unmap_trackers(&self, p_old: PageTable, pt: PageTable, frames: BTreeSetFrameAllocator, vpn: usize) -> bool {
        let start = self.spec_start();
        &&& self.spec_mapping() == AreaMapping::Identical ==> pt.trackers() == p_old.trackers()
        &&& self.spec_mapping() == AreaMapping::Framed ==> {
            &&& forall|w: usize| #[trigger] pt.trackers().contains_key(w) == (p_old.trackers().contains_key(w)
                && !(start <= w < vpn))
            &&& forall|w: usize| #[trigger] pt.trackers().contains_key(w) ==> pt.trackers()[w] == p_old.trackers()[w]
            &&& forall|u: usize| start <= u < vpn ==> !#[trigger] frames.handed_out(p_old.trackers()[u].spec_ppn())
                && !pt.owns(p_old.trackers()[u].spec_ppn())
        }
    }

    proof fn lemma_unmap_start(&self, pt: PageTable, frames: BTreeSetFrameAllocator)
        requires
            pt.wf(),
            pt.frames_in(&frames),
        ensures
            self.unmap_frames(pt, frames, pt, frames),
            self.unmap_keys(pt, pt, self.spec_start()),
            self.unmap_trackers(pt, pt, frames, self.spec_start()),
    {
        reveal(Area::unmap_frames);
        reveal(Area::unmap_keys);
        reveal(Area::unmap_trackers);
    }

    proof fn lemma_unmap_step(
        &self,
        p_old: PageTable,
        f_old: BTreeSetFrameAllocator,
        p0: PageTable,
        f0: BTreeSetFrameAllocator,
        p1: PageTable,
        f1: BTreeSetFrameAllocator,
        vpn: usize,
    )
        requires
            self.unmap_frames(p_old, f_old, p0, f0),
            self.unmap_keys(p_old, p0, vpn),
            self.unmap_trackers(p_old, p0, f0, vpn),
            self.spec_start() <= vpn < self.spec_end(),
            self.spec_end() - self.spec_start() <= VPN_LIMIT,
            p1.wf(),
            p1.frames_in(&f1),
            PageTable::frames_kept(&p0, &p1, &f0, &f1),
            forall|f: usize| #[trigger] p1.owns(f) ==> p0.owns(f),
            p1.spec_asid() == p0.spec_asid(),
            p1.spec_root_ppn() == p0.spec_root_ppn(),
            p1@ == p0@.remove(vpn_key(vpn)),
            self.spec_mapping() == AreaMapping::Identical ==> p1.trackers() == p0.trackers(),
            self.spec_mapping() == AreaMapping::Framed ==> p1.trackers() == p0.trackers().remove(vpn)
                && !f1.handed_out(p0.trackers()[vpn].spec_ppn()),
            self.spec_mapping() == AreaMapping::Framed ==> p0.trackers().contains_key(vpn),
        ensures
            self.unmap_frames(p_old, f_old, p1, f1),
            self.unmap_keys(p_old, p1, (vpn + 1) as usize),
            self.unmap_trackers(p_old, p1, f1, (vpn + 1) as usize),
    {
        reveal(Area::unmap_frames);
        reveal(Area::unmap_keys);
        reveal(Area::unmap_trackers);
        let start = self.spec_start();
        let v1 = (vpn + 1) as usize;
        assert(v1 == vpn + 1);
        let k = vpn_key(vpn);
        assert forall|f: usize| !p_old.owns(f) && !p1.owns(f) implies #[trigger] f1.handed_out(f) == f_old.handed_out(
            f,
        ) by {
            assert(!p0.owns(f));
        }
        assert forall|u: usize| start <= u < vpn implies vpn_key(u) != k by {
            lemma_keys_distinct(u, vpn);
        }
        assert forall|u: usize| start <= u < v1 implies !#[trigger] p1@.contains_key(vpn_key(u)) by {
            if u < vpn {
                assert(!p0@.contains_key(vpn_key(u)));
            }
        }
        assert forall|kk: usize| !key_in_range(kk, start, v1) implies (#[trigger] p1@.contains_key(kk)
            == p_old@.contains_key(kk) && (p_old@.contains_key(kk) ==> p1@[kk] == p_old@[kk])) by {
            if key_in_range(kk, start, vpn) {
                let u = choose|u: usize| start <= u < vpn && #[trigger] vpn_key(u) == kk;
                assert(start <= u < v1 && vpn_key(u) == kk);
            }
            if kk == k {
                assert(start <= vpn < v1 && vpn_key(vpn) == kk);
            }
            assert(p0@.contains_key(kk) == p_old@.contains_key(kk));
        }
        if self.spec_mapping() == AreaMapping::Framed {
            let x = p0.trackers()[vpn].spec_ppn();
            assert(p0.trackers()[vpn] == p_old.trackers()[vpn]);
            assert(!p1.owns(x));
            assert forall|w: usize| #[trigger] p1.trackers().contains_key(w) == (p_old.trackers().contains_key(w)
                && !(start <= w < v1)) by {
                assert(p0.trackers().contains_key(w) == (p_old.trackers().contains_key(w) && !(start <= w < vpn)));
            }
            assert forall|w: usize| #[trigger] p1.trackers().contains_key(w) implies p1.trackers()[w]
                == p_old.trackers()[w] by {
                assert(p0.trackers().contains_key(w));
            }
            assert forall|u: usize| start <= u < v1 implies !#[trigger] f1.handed_out(p_old.trackers()[u].spec_ppn())
                && !p1.owns(p_old.trackers()[u].spec_ppn()) by {
                if u < vpn {
                    let y = p_old.trackers()[u].spec_ppn();
                    assert(!f0.handed_out(y) && !p0.owns(y));
                    assert(!p1.owns(y));
                }
            }
        }
    }

    /// Removes the mappings of all pages of the area; framed pages give their data
    /// frames back.
    fn unmap(&self, pt: &mut PageTable, frames: &mut BTreeSetFrameAllocator) -> (r: Result<(), KernelError>)
        requires
            old(pt).wf(),
            old(pt).frames_in(&*old(frames)),
            self.mapped_in(&*old(pt)),
        ensures
            r is Ok,
            final(pt).wf(),
            final(pt).frames_in(&*final(frames)),
            PageTable::frames_kept(&*old(pt), &*final(pt), &*old(frames), &*final(frames)),
            forall|f: usize| #[trigger] final(pt).owns(f) ==> old(pt).owns(f),
            final(pt).spec_asid() == old(pt).spec_asid(),
            final(pt).spec_root_ppn() == old(pt).spec_root_ppn(),
            forall|k: usize| #[trigger] final(pt)@.contains_key(k) == (old(pt)@.contains_key(k) && !key_in_range(
                k,
                self.spec_start(),
                self.spec_end(),
            )),
            forall|k: usize| #[trigger] final(pt)@.contains_key(k) ==> final(pt)@[k] == old(pt)@[k],
            self.spec_mapping() == AreaMapping::Identical ==> final(pt).trackers() == old(pt).trackers(),
            self.spec_mapping() == AreaMapping::Framed ==> {
                &&& forall|w: usize| #[trigger] final(pt).trackers().contains_key(w) == (old(pt).trackers().contains_key(w)
                    && !(self.spec_start() <= w < self.spec_end()))
                &&& forall|w: usize| #[trigger] final(pt).trackers().contains_key(w) ==> final(pt).trackers()[w]
                    == old(pt).trackers()[w]
                &&& forall|u: usize| self.spec_start() <= u < self.spec_end() ==> !#[trigger] final(frames).handed_out(
                    old(pt).trackers()[u].spec_ppn(),
                )
            },
    {
        let start = self.page_range_tracker.start_vpn();
        let end = self.page_range_tracker.end_vpn();
        let mut vpn = start;
        proof {
            self.lemma_unmap_start(*pt, *frames);
        }
        while vpn < end
            invariant
                start == self.spec_start(),
                end == self.spec_end(),
                start <= vpn <= end,
                end - start <= VPN_LIMIT,
                self.mapped_in(&*old(pt)),
                self.unmap_frames(*old(pt), *old(frames), *pt, *frames),
                self.unmap_keys(*old(pt), *pt, vpn),
                self.unmap_trackers(*old(pt), *pt, *frames, vpn),
            decreases end - vpn,
        {
            let ghost p0 = *pt;
            let ghost f0 = *frames;
            proof {
                reveal(Area::unmap_frames);
                reveal(Area::unmap_keys);
                reveal(Area::unmap_trackers);
                let k = vpn_key(vpn);
                assert(old(pt)@.contains_key(k));
                assert forall|u: usize| start <= u < vpn implies vpn_key(u) != k by {
                    lemma_keys_distinct(u, vpn);
                }
                if key_in_range(k, start, vpn) {
                    let u = choose|u: usize| start <= u < vpn && #[trigger] vpn_key(u) == k;
                }
                assert(pt@.contains_key(k));
                if self.spec_mapping() == AreaMapping::Framed {
                    assert(old(pt).trackers().contains_key(vpn));
                    assert(pt.trackers().contains_key(vpn));
                }
            }
            let r = self.unmap_one(vpn, pt, frames);
            proof {
                self.lemma_unmap_step(*old(pt), *old(frames), p0, f0, *pt, *frames, vpn);
            }
            vpn = vpn + 1;
        }
        proof {
            reveal(Area::unmap_frames);
            reveal(Area::unmap_keys);
            reveal(Area::unmap_trackers);
            assert forall|k: usize| #[trigger] pt@.contains_key(k) == (old(pt)@.contains_key(k) && !key_in_range(
                k,
                start,
                end,
            )) by {
                if key_in_range(k, start, end) {
                    let u = choose|u: usize| start <= u < end && #[trigger] vpn_key(u) == k;
                    assert(!pt@.contains_key(vpn_key(u)));
                }
            }
            assert forall|k: usize| #[trigger] pt@.contains_key(k) implies pt@[k] == old(pt)@[k] by {
                if key_in_range(k, start, end) {
                    let u = choose|u: usize| start <= u < end && #[trigger] vpn_key(u) == k;
                    assert(!pt@.contains_key(vpn_key(u)));
                }
            }
        }
        Ok(())
    }
}

} // verus!

verus! {

impl Area {
    /// An area of the pages `[start_vpn, end_vpn)` with `flags` and `area_mapping`:
    /// the range is taken from `allocator` and every page is mapped in `pt`.
    /// `AreaAllocFailed` when the range is not free in `allocator`; otherwise the
    /// error of `mapping_error` when the pages cannot all be mapped. On an error
    /// nothing changes.
    pub fn new(
        start_vpn: usize,
        end_vpn: usize,
        flags: PageTableFlags,
        area_mapping: AreaMapping,
        allocator: &mut LinkedListPageRangeAllocator,
        pt: &mut PageTable,
        frames: &mut BTreeSetFrameAllocator,
    ) -> (r: Result<Self, KernelError>)
        requires
            old(allocator).wf(),
            old(pt).wf(),
            old(pt).frames_in(&*old(frames)),
            range_free(&*old(allocator), start_vpn, end_vpn) ==> end_vpn - start_vpn <= VPN_LIMIT,
            range_free(&*old(allocator), start_vpn, end_vpn) && area_mapping == AreaMapping::Identical
                ==> end_vpn <= PPN_LIMIT,
        ensures
            final(allocator).wf(),
            final(allocator).start() == old(allocator).start(),
            final(allocator).end() == old(allocator).end(),
            final(pt).wf(),
            final(pt).frames_in(&*final(frames)),
            PageTable::frames_kept(&*old(pt), &*final(pt), &*old(frames), &*final(frames)),
            forall|f: usize| #[trigger] old(pt).owns(f) ==> final(pt).owns(f),
            forall|f: usize| #[trigger] final(pt).owns(f) && !old(pt).owns(f) ==> !old(frames).handed_out(f),
            final(pt).spec_asid() == old(pt).spec_asid(),
            final(pt).spec_root_ppn() == old(pt).spec_root_ppn(),
            r is Ok <==> range_free(&*old(allocator), start_vpn, end_vpn) && can_map(
                &*old(pt),
                &*old(frames),
                start_vpn,
                end_vpn,
                flags,
                area_mapping,
            ),
            !range_free(&*old(allocator), start_vpn, end_vpn) ==> r == Err::<Self, KernelError>(
                KernelError::AreaAllocFailed(start_vpn, end_vpn),
            ),
            range_free(&*old(allocator), start_vpn, end_vpn) ==> match mapping_error(
                &*old(pt),
                &*old(frames),
                start_vpn,
                end_vpn,
                flags,
                area_mapping,
            ) {
                Some(err) => r == Err::<Self, KernelError>(err),
                None => r is Ok,
            },
            r is Err ==> {
                &&& final(allocator)@ == old(allocator)@
                &&& *final(pt) == *old(pt)
                &&& *final(frames) == *old(frames)
            },
            r is Ok ==> {
                let a = r->Ok_0;
                &&& a.spec_start() == start_vpn
                &&& a.spec_end() == end_vpn
                &&& a.spec_flags() == flags
                &&& a.spec_mapping() == area_mapping
                &&& final(allocator)@ == old(allocator)@.union(Set::new(|v: usize| start_vpn <= v < end_vpn))
                &&& a.mapped_in(&*final(pt))
                &&& forall|k: usize| !key_in_range(k, start_vpn, end_vpn) ==> (#[trigger] final(pt)@.contains_key(k)
                    == old(pt)@.contains_key(k) && (old(pt)@.contains_key(k) ==> final(pt)@[k] == old(pt)@[k]))
                &&& forall|w: usize| !(start_vpn <= w < end_vpn) ==> (#[trigger] final(pt).trackers().contains_key(w)
                    == old(pt).trackers().contains_key(w) && (old(pt).trackers().contains_key(w)
                    ==> final(pt).trackers()[w] == old(pt).trackers()[w]))
                &&& area_mapping == AreaMapping::Identical ==> final(pt).trackers() == old(pt).trackers()
                &&& area_mapping == AreaMapping::Framed ==> forall|v: usize|
                    start_vpn <= v < end_vpn ==> #[trigger] final(pt).trackers()[v]@ == zero_page()
                &&& final(frames).available() == old(frames).available() - range_frames(
                    old(pt).l1_set(),
                    old(pt).l2_set(),
                    start_vpn as int,
                    end_vpn as int,
                    data_frames(area_mapping),
                )
                &&& (final(pt).l1_set(), final(pt).l2_set()) == range_sets(
                    old(pt).l1_set(),
                    old(pt).l2_set(),
                    start_vpn as int,
                    end_vpn as int,
                )
            },
    {
        match allocator.allocate(start_vpn, end_vpn) {
            Some(()) => {},
            None => {
                return Err(KernelError::AreaAllocFailed(start_vpn, end_vpn));
            },
        }
        if let Some(err) = check_mapping(pt, frames, start_vpn, end_vpn, flags, area_mapping) {
            let _ = allocator.dealloc(start_vpn, end_vpn);
            proof {
                assert(allocator@ =~= old(allocator)@);
            }
            return Err(err);
        }
        let area = Self {
            area_mapping,
            flags,
            page_range_tracker: PageRangeTracker::new(start_vpn, end_vpn),
        };
        area.map(pt, frames)?;
        Ok(area)
    }

    /// An area with the range, flags and mapping of `another`, with its own pages
    /// mapped in `pt` (their data is not copied). `AreaAllocFailed` when the range
    /// is not free in `allocator`; otherwise the error of `mapping_error` when the
    /// pages cannot all be mapped. On an error nothing changes.
    pub fn from_another(
        another: &Self,
        allocator: &mut LinkedListPageRangeAllocator,
        pt: &mut PageTable,
        frames: &mut BTreeSetFrameAllocator,
    ) -> (r: Result<Self, KernelError>)
        requires
            old(allocator).wf(),
            old(pt).wf(),
            old(pt).frames_in(&*old(frames)),
            range_free(&*old(allocator), another.spec_start(), another.spec_end()) ==> another.spec_end()
                - another.spec_start() <= VPN_LIMIT,
            range_free(&*old(allocator), another.spec_start(), another.spec_end()) && another.spec_mapping()
                == AreaMapping::Identical ==> another.spec_end() <= PPN_LIMIT,
        ensures
            final(allocator).wf(),
            final(allocator).start() == old(allocator).start(),
            final(allocator).end() == old(allocator).end(),
            final(pt).wf(),
            final(pt).frames_in(&*final(frames)),
            PageTable::frames_kept(&*old(pt), &*final(pt), &*old(frames), &*final(frames)),
            forall|f: usize| #[trigger] old(pt).owns(f) ==> final(pt).owns(f),
            forall|f: usize| #[trigger] final(pt).owns(f) && !old(pt).owns(f) ==> !old(frames).handed_out(f),
            final(pt).spec_asid() == old(pt).spec_asid(),
            final(pt).spec_root_ppn() == old(pt).spec_root_ppn(),
            r is Ok <==> range_free(&*old(allocator), another.spec_start(), another.spec_end()) && can_map(
                &*old(pt),
                &*old(frames),
                another.spec_start(),
                another.spec_end(),
                another.spec_flags(),
                another.spec_mapping(),
            ),
            !range_free(&*old(allocator), another.spec_start(), another.spec_end()) ==> r == Err::<
                Self,
                KernelError,
            >(KernelError::AreaAllocFailed(another.spec_start(), another.spec_end())),
            range_free(&*old(allocator), another.spec_start(), another.spec_end()) ==> match mapping_error(
                &*old(pt),
                &*old(frames),
                another.spec_start(),
                another.spec_end(),
                another.spec_flags(),
                another.spec_mapping(),
            ) {
                Some(err) => r == Err::<Self, KernelError>(err),
                None => r is Ok,
            },
            r is Err ==> {
                &&& final(allocator)@ == old(allocator)@
                &&& *final(pt) == *old(pt)
                &&& *final(frames) == *old(frames)
            },
            r is Ok ==> {
                let a = r->Ok_0;
                &&& a.spec_start() == another.spec_start()
                &&& a.spec_end() == another.spec_end()
                &&& a.spec_flags() == another.spec_flags()
                &&& a.spec_mapping() == another.spec_mapping()
                &&& final(allocator)@ == old(allocator)@.union(
                    Set::new(|v: usize| another.spec_start() <= v < another.spec_end()),
                )
                &&& a.mapped_in(&*final(pt))
                &&& forall|k: usize| !key_in_range(k, another.spec_start(), another.spec_end()) ==> (
                #[trigger] final(pt)@.contains_key(k) == old(pt)@.contains_key(k) && (old(pt)@.contains_key(k)
                    ==> final(pt)@[k] == old(pt)@[k]))
                &&& forall|w: usize| !(another.spec_start() <= w < another.spec_end()) ==> (
                #[trigger] final(pt).trackers().contains_key(w) == old(pt).trackers().contains_key(w) && (old(pt).trackers().contains_key(w) ==> final(pt).trackers()[w] == old(pt).trackers()[w]))
                &&& another.spec_mapping() == AreaMapping::Identical ==> final(pt).trackers() == old(pt).trackers()
                &&& another.spec_mapping() == AreaMapping::Framed ==> forall|v: usize|
                    another.spec_start() <= v < another.spec_end() ==> #[trigger] final(pt).trackers()[v]@
                        == zero_page()
                &&& final(frames).available() == old(frames).available() - range_frames(
                    old(pt).l1_set(),
                    old(pt).l2_set(),
                    another.spec_start() as int,
                    another.spec_end() as int,
                    data_frames(another.spec_mapping()),
                )
                &&& (final(pt).l1_set(), final(pt).l2_set()) == range_sets(
                    old(pt).l1_set(),
                    old(pt).l2_set(),
                    another.spec_start() as int,
                    another.spec_end() as int,
                )
            },
    {
        let (start_vpn, end_vpn) = another.range();
        Self::new(start_vpn, end_vpn, another.flags, another.area_mapping, allocator, pt, frames)
    }

    /// Ends the area: every page is unmapped (framed pages give their data frames
    /// back) and the range goes back to `allocator`.
    pub fn release(
        self,
        allocator: &mut LinkedListPageRangeAllocator,
        pt: &mut PageTable,
        frames: &mut BTreeSetFrameAllocator,
    )
        requires
            old(allocator).wf(),
            forall|v: usize| self.spec_start() <= v < self.spec_end() ==> #[trigger] old(allocator)@.contains(v),
            old(allocator).start() <= self.spec_start(),
            self.spec_end() <= old(allocator).end(),
            old(pt).wf(),
            old(pt).frames_in(&*old(frames)),
            self.mapped_in(&*old(pt)),
        ensures
            final(allocator).wf(),
            final(allocator).start() == old(allocator).start(),
            final(allocator).end() == old(allocator).end(),
            final(allocator)@ == old(allocator)@.difference(
                Set::new(|v: usize| self.spec_start() <= v < self.spec_end()),
            ),
            final(pt).wf(),
            final(pt).frames_in(&*final(frames)),
            PageTable::frames_kept(&*old(pt), &*final(pt), &*old(frames), &*final(frames)),
            forall|f: usize| #[trigger] final(pt).owns(f) ==> old(pt).owns(f),
            final(pt).spec_asid() == old(pt).spec_asid(),
            final(pt).spec_root_ppn() == old(pt).spec_root_ppn(),
            forall|k: usize| #[trigger] final(pt)@.contains_key(k) == (old(pt)@.contains_key(k) && !key_in_range(
                k,
                self.spec_start(),
                self.spec_end(),
            )),
            forall|k: usize| #[trigger] final(pt)@.contains_key(k) ==> final(pt)@[k] == old(pt)@[k],
            self.spec_mapping() == AreaMapping::Identical ==> final(pt).trackers() == old(pt).trackers(),
            self.spec_mapping() == AreaMapping::Framed ==> {
                &&& forall|w: usize| #[trigger] final(pt).trackers().contains_key(w) == (old(pt).trackers().contains_key(w)
                    && !(self.spec_start() <= w < self.spec_end()))
                &&& forall|w: usize| #[trigger] final(pt).trackers().contains_key(w) ==> final(pt).trackers()[w]
                    == old(pt).trackers()[w]
                &&& forall|u: usize| self.spec_start() <= u < self.spec_end() ==> !#[trigger] final(frames).handed_out(
                    old(pt).trackers()[u].spec_ppn(),
                )
            },
    {
        let _ = self.unmap(pt, frames);
        let (start_vpn, end_vpn) = self.range();
        let r = allocator.dealloc(start_vpn, end_vpn);
        assert(r is Some);
    }

    /// The bytes of the data frame of page `vpn` in `pt`; `VPNNotMapped` when no data
    /// frame is recorded for it.
    pub fn get_byte_array<'a>(&self, vpn: usize, pt: &'a PageTable) -> (r: Result<&'a Vec<u8>, KernelError>)
        ensures
            pt.trackers().contains_key(vpn) ==> r is Ok && r->Ok_0@ == pt.trackers()[vpn]@,
            !pt.trackers().contains_key(vpn) ==> r == Err::<&Vec<u8>, KernelError>(
                KernelError::VPNNotMapped(vpn),
            ),
    {
        pt.get_byte_array(vpn)
    }

    /// Copies `data` into page `vpn` of a framed area from byte `offset` on;
    /// `VPNNotMapped` when no data frame is recorded for the page.
    pub fn write_page(&self, vpn: usize, offset: usize, data: &[u8], pt: &mut PageTable) -> (r: Result<(), KernelError>)
        requires
            self.spec_mapping() == AreaMapping::Framed,
            old(pt).wf(),
            offset + data@.len() <= MEMORY_PAGE_BYTE_SIZE,
        ensures
            final(pt).wf(),
            final(pt)@ == old(pt)@,
            final(pt).spec_asid() == old(pt).spec_asid(),
            final(pt).spec_root_ppn() == old(pt).spec_root_ppn(),
            final(pt).l1_set() == old(pt).l1_set() && final(pt).l2_set() == old(pt).l2_set(),
            forall|f: usize| #[trigger] final(pt).owns(f) == old(pt).owns(f),
            !old(pt).trackers().contains_key(vpn) ==> r == Err::<(), KernelError>(
                KernelError::VPNNotMapped(vpn),
            ) && *final(pt) == *old(pt),
            old(pt).trackers().contains_key(vpn) ==> {
                &&& r is Ok
                &&& final(pt).trackers().dom() == old(pt).trackers().dom()
                &&& forall|w: usize| w != vpn ==> #[trigger] final(pt).trackers()[w] == old(pt).trackers()[w]
                &&& final(pt).trackers()[vpn].spec_ppn() == old(pt).trackers()[vpn].spec_ppn()
                &&& final(pt).trackers()[vpn]@ == old(pt).trackers()[vpn]@.subrange(0, offset as int) + data@
                    + old(pt).trackers()[vpn]@.subrange(offset + data@.len(), MEMORY_PAGE_BYTE_SIZE as int)
            },
    {
        pt.write_bytes(vpn, offset, data)
    }
}

} // verus!

verus! {

/// Page `old_page`, which starts at byte `base` of its area, after the bytes
/// `[offset, upto)` of the area were overwritten by `data` (whose first byte goes to
/// byte `offset`).
pub open spec fn page_after_write(old_page: Seq<u8>, base: int, offset: int, data: Seq<u8>, upto: int) -> Seq<u8> {
    Seq::new(
        old_page.len(),
        |j: int|
            if offset <= base + j < upto {
                data[base + j - offset]
            } else {
                old_page[j]
            },
    )
}

proof fn lemma_page_write_step(
    old_page: Seq<u8>,
    cur: Seq<u8>,
    new: Seq<u8>,
    base: int,
    offset: int,
    data: Seq<u8>,
    start: int,
    end: int,
)
    requires
        old_page.len() == MEMORY_PAGE_BYTE_SIZE,
        cur == page_after_write(old_page, base, offset, data, start),
        offset <= start < end,
        end - offset <= data.len(),
        base <= start,
        end <= base + MEMORY_PAGE_BYTE_SIZE,
        new == cur.subrange(0, start - base) + data.subrange(start - offset, end - offset) + cur.subrange(
            end - base,
            MEMORY_PAGE_BYTE_SIZE as int,
        ),
    ensures
        new == page_after_write(old_page, base, offset, data, end),
{
    assert(new =~= page_after_write(old_page, base, offset, data, end));
}

proof fn lemma_other_page(u: int, vpn: int, ppo: int, start: int, end: int)
    requires
        u != vpn,
        0 <= u,
        0 <= vpn,
        start == vpn * 4096 + ppo,
        0 <= ppo,
        start <= end,
        ppo + (end - start) <= 4096,
    ensures
        forall|j: int| 0 <= j < 4096 ==> !(start <= #[trigger] (u * 4096 + j) < end),
{
    if u < vpn {
        assert(u * 4096 + 4096 <= vpn * 4096) by (nonlinear_arith)
            requires
                u < vpn,
        ;
    } else {
        assert(vpn * 4096 + 4096 <= u * 4096) by (nonlinear_arith)
            requires
                vpn < u,
        ;
    }
}

impl Area {
    /// Every page of the area in `t` keeps its frame and holds what it held in `old_t`
    /// after the bytes `[offset, upto)` of the area were overwritten by `data`.
    pub open spec fn pages_written(&self, old_t: &PageTable, t: &PageTable, offset: int, data: Seq<u8>, upto: int) -> bool {
        forall|u: usize|
            self.spec_start() <= u < self.spec_end() ==> {
                &&& #[trigger] t.trackers()[u].spec_ppn() == old_t.trackers()[u].spec_ppn()
                &&& t.trackers()[u]@ == page_after_write(
                    old_t.trackers()[u]@,
                    (u - self.spec_start()) * MEMORY_PAGE_BYTE_SIZE,
                    offset,
                    data,
                    upto,
                )
            }
    }

    /// Copies `data` into the pages of the area as one run of bytes, the first byte
    /// going to byte `offset` of the area.
    #[verifier::rlimit(40)]
    #[verifier::spinoff_prover]
    pub fn write_multi_pages(&self, offset: usize, data: &[u8], pt: &mut PageTable) -> (r: Result<
        (),
        KernelError,
    >)
        requires
            old(pt).wf(),
            self.mapped_in(&*old(pt)),
            (self.spec_end() - self.spec_start()) * MEMORY_PAGE_BYTE_SIZE <= usize::MAX,
            offset + data@.len() <= (self.spec_end() - self.spec_start()) * MEMORY_PAGE_BYTE_SIZE,
            data@.len() > 0 ==> self.spec_mapping() == AreaMapping::Framed,
            offset % MEMORY_PAGE_BYTE_SIZE == 0 || offset % MEMORY_PAGE_BYTE_SIZE + data@.len()
                <= MEMORY_PAGE_BYTE_SIZE,
        ensures
            r is Ok,
            final(pt).wf(),
            final(pt)@ == old(pt)@,
            final(pt).spec_asid() == old(pt).spec_asid(),
            final(pt).spec_root_ppn() == old(pt).spec_root_ppn(),
            final(pt).l1_set() == old(pt).l1_set() && final(pt).l2_set() == old(pt).l2_set(),
            forall|f: usize| #[trigger] final(pt).owns(f) == old(pt).owns(f),
            final(pt).trackers().dom() == old(pt).trackers().dom(),
            forall|w: usize| !(self.spec_start() <= w < self.spec_end()) ==> #[trigger] final(pt).trackers()[w]
                == old(pt).trackers()[w],
            data@.len() == 0 ==> *final(pt) == *old(pt),
            self.spec_mapping() == AreaMapping::Framed ==> self.pages_written(
                &*old(pt),
                &*final(pt),
                offset as int,
                data@,
                offset + data@.len(),
            ),
    {
        let length = data.len();
        let linear_end = length + offset;
        let vpn_offset = self.page_range_tracker.start_vpn();
        let ghost s = self.spec_start();
        let ghost e = self.spec_end();
        let mut linear_start = offset;
        proof {
            if self.spec_mapping() == AreaMapping::Framed {
                assert forall|u: usize| s <= u < e implies #[trigger] pt.trackers()[u]@ == page_after_write(
                    pt.trackers()[u]@,
                    (u - s) * MEMORY_PAGE_BYTE_SIZE,
                    offset as int,
                    data@,
                    offset as int,
                ) by {
                    assert(pt.trackers()[u]@ =~= page_after_write(
                        pt.trackers()[u]@,
                        (u - s) * MEMORY_PAGE_BYTE_SIZE,
                        offset as int,
                        data@,
                        offset as int,
                    ));
                }
            }
        }
        while linear_start < linear_end
            invariant
                s == self.spec_start(),
                e == self.spec_end(),
                vpn_offset == s,
                length == data@.len(),
                linear_end == offset + length,
                linear_end <= (e - s) * MEMORY_PAGE_BYTE_SIZE,
                offset <= linear_start,
                offset < linear_end ==> linear_start <= linear_end,
                offset >= linear_end ==> linear_start == offset,
                linear_start < linear_end ==> linear_start % MEMORY_PAGE_BYTE_SIZE == offset
                    % MEMORY_PAGE_BYTE_SIZE,
                offset % MEMORY_PAGE_BYTE_SIZE != 0 ==> linear_start == offset || linear_start == linear_end,
                offset % MEMORY_PAGE_BYTE_SIZE == 0 || offset % MEMORY_PAGE_BYTE_SIZE + length
                    <= MEMORY_PAGE_BYTE_SIZE,
                length > 0 ==> self.spec_mapping() == AreaMapping::Framed,
                self.mapped_in(&*old(pt)),
                old(pt).wf(),
                pt.wf(),
                pt@ == old(pt)@,
                pt.spec_asid() == old(pt).spec_asid(),
                pt.spec_root_ppn() == old(pt).spec_root_ppn(),
                pt.l1_set() == old(pt).l1_set() && pt.l2_set() == old(pt).l2_set(),
                forall|f: usize| #[trigger] pt.owns(f) == old(pt).owns(f),
                pt.trackers().dom() == old(pt).trackers().dom(),
                forall|w: usize| !(s <= w < e) ==> #[trigger] pt.trackers()[w] == old(pt).trackers()[w],
                linear_start == offset ==> *pt == *old(pt),
                self.spec_mapping() == AreaMapping::Framed ==> self.pages_written(
                    &*old(pt),
                    &*pt,
                    offset as int,
                    data@,
                    linear_start as int,
                ),
            decreases linear_end - linear_start,
        {
            let start = linear_start;
            let end = if linear_end - start < MEMORY_PAGE_BYTE_SIZE {
                linear_end
            } else {
                start + MEMORY_PAGE_BYTE_SIZE
            };
            let src = &data[(start - offset)..(end - offset)];
            let vpn = start / MEMORY_PAGE_BYTE_SIZE;
            let per_page_offset = start % MEMORY_PAGE_BYTE_SIZE;
            proof {
                assert(vpn < e - s) by (nonlinear_arith)
                    requires
                        start < (e - s) * 4096,
                        vpn == start / 4096,
                ;
                assert(start == vpn * 4096 + per_page_offset);
                assert(per_page_offset + (end - start) <= MEMORY_PAGE_BYTE_SIZE);
            }
            let ghost p0 = *pt;
            let ghost u0 = (vpn + vpn_offset) as usize;
            proof {
                assert(old(pt)@.contains_key(vpn_key(u0)));
                assert(old(pt).trackers().contains_key(u0));
                old(pt).lemma_tracker_wf(u0);
            }
            self.write_page(vpn + vpn_offset, per_page_offset, src, pt)?;
            proof {
                let base = (u0 - s) * MEMORY_PAGE_BYTE_SIZE;
                assert(base == vpn * 4096);
                lemma_page_write_step(
                    old(pt).trackers()[u0]@,
                    p0.trackers()[u0]@,
                    pt.trackers()[u0]@,
                    base,
                    offset as int,
                    data@,
                    start as int,
                    end as int,
                );
                assert forall|u: usize| s <= u < e && u != u0 implies #[trigger] pt.trackers()[u]@ == page_after_write(
                    old(pt).trackers()[u]@,
                    (u - s) * MEMORY_PAGE_BYTE_SIZE,
                    offset as int,
                    data@,
                    end as int,
                ) by {
                    assert(p0.trackers()[u] == pt.trackers()[u]);
                    assert(old(pt)@.contains_key(vpn_key(u)));
                    old(pt).lemma_tracker_wf(u);
                    assert(p0.trackers()[u].spec_ppn() == old(pt).trackers()[u].spec_ppn());
                    lemma_other_page(u - s, vpn as int, per_page_offset as int, start as int, end as int);
                    assert(p0.trackers()[u]@ =~= page_after_write(
                        old(pt).trackers()[u]@,
                        (u - s) * MEMORY_PAGE_BYTE_SIZE,
                        offset as int,
                        data@,
                        end as int,
                    ));
                }
                assert forall|w: usize| !(s <= w < e) implies #[trigger] pt.trackers()[w] == old(pt).trackers()[w] by {
                    assert(p0.trackers()[w] == pt.trackers()[w]);
                }
            }
            linear_start = end;
        }
        Ok(())
    }
}

/// The root entries recorded in `l1s`.
pub(crate) open spec fn l1_of(l1s: Seq<usize>) -> Set<int> {
    Set::new(|a: int| exists|j: int| 0 <= j < l1s.len() && l1s[j] as int == a)
}

/// The entry pairs recorded in `l2s`.
pub(crate) open spec fn l2_of(l2s: Seq<(usize, usize)>) -> Set<(int, int)> {
    Set::new(|p: (int, int)| exists|j: int| 0 <= j < l2s.len() && l2s[j].0 as int == p.0 && l2s[j].1 as int == p.1)
}

/// Whether `a` is recorded in `l1s`.
pub(crate) fn has_entry(l1s: &Vec<usize>, a: usize) -> (r: bool)
    ensures
        r == l1_of(l1s@).contains(a as int),
{
    let mut j: usize = 0;
    while j < l1s.len()
        invariant
            j <= l1s@.len(),
            forall|k: int| 0 <= k < j ==> l1s@[k] != a,
        decreases l1s@.len() - j,
    {
        if l1s[j] == a {
            return true;
        }
        j = j + 1;
    }
    false
}

/// Whether `(a, b)` is recorded in `l2s`.
pub(crate) fn has_pair(l2s: &Vec<(usize, usize)>, a: usize, b: usize) -> (r: bool)
    ensures
        r == l2_of(l2s@).contains((a as int, b as int)),
{
    let mut j: usize = 0;
    while j < l2s.len()
        invariant
            j <= l2s@.len(),
            forall|k: int| 0 <= k < j ==> l2s@[k] != (a, b),
        decreases l2s@.len() - j,
    {
        let (x, y) = l2s[j];
        if x == a && y == b {
            return true;
        }
        j = j + 1;
    }
    false
}

/// The mapper frames that page `v` needs beside those recorded, which it then
/// records.
pub(crate) fn page_mapper_frames(l1s: &mut Vec<usize>, l2s: &mut Vec<(usize, usize)>, v: usize) -> (r: u128)
    requires
        v < VPN_LIMIT,
    ensures
        r == frames_for(l1_of(old(l1s)@), l2_of(old(l2s)@), v),
        l1_of(final(l1s)@) == l1_of(old(l1s)@).insert(index0(v as int)),
        l2_of(final(l2s)@) == l2_of(old(l2s)@).insert((index0(v as int), index1(v as int))),
{
    let a = v / 0x4_0000 % 512;
    let b = v / 512 % 512;
    assert(a as int == index0(v as int) && b as int == index1(v as int));
    let ghost o1 = l1s@;
    let ghost o2 = l2s@;
    if !has_entry(l1s, a) {
        l1s.push(a);
        l2s.push((a, b));
        proof {
            assert(l1_of(l1s@) =~= l1_of(o1).insert(a as int)) by {
                assert(l1s@[o1.len() as int] == a);
                assert forall|x: int| l1_of(o1).contains(x) implies l1_of(l1s@).contains(x) by {
                    let j = choose|j: int| 0 <= j < o1.len() && o1[j] as int == x;
                    assert(l1s@[j] == o1[j]);
                }
                assert forall|x: int| l1_of(l1s@).contains(x) && x != a implies l1_of(o1).contains(x) by {
                    let j = choose|j: int| 0 <= j < l1s@.len() && l1s@[j] as int == x;
                    assert(j < o1.len());
                    assert(o1[j] == l1s@[j]);
                }
            }
            assert(l2_of(l2s@) =~= l2_of(o2).insert((a as int, b as int))) by {
                assert(l2s@[o2.len() as int] == (a, b));
                assert forall|p: (int, int)| l2_of(o2).contains(p) implies l2_of(l2s@).contains(p) by {
                    let j = choose|j: int| 0 <= j < o2.len() && o2[j].0 as int == p.0 && o2[j].1 as int == p.1;
                    assert(l2s@[j] == o2[j]);
                }
                assert forall|p: (int, int)| l2_of(l2s@).contains(p) && p != (a as int, b as int) implies l2_of(
                    o2,
                ).contains(p) by {
                    let j = choose|j: int| 0 <= j < l2s@.len() && l2s@[j].0 as int == p.0 && l2s@[j].1 as int == p.1;
                    assert(j < o2.len());
                    assert(o2[j] == l2s@[j]);
                }
            }
        }
        2
    } else if !has_pair(l2s, a, b) {
        l2s.push((a, b));
        proof {
            assert(l1_of(o1).insert(a as int) =~= l1_of(o1));
            assert(l2_of(l2s@) =~= l2_of(o2).insert((a as int, b as int))) by {
                assert(l2s@[o2.len() as int] == (a, b));
                assert forall|p: (int, int)| l2_of(o2).contains(p) implies l2_of(l2s@).contains(p) by {
                    let j = choose|j: int| 0 <= j < o2.len() && o2[j].0 as int == p.0 && o2[j].1 as int == p.1;
                    assert(l2s@[j] == o2[j]);
                }
                assert forall|p: (int, int)| l2_of(l2s@).contains(p) && p != (a as int, b as int) implies l2_of(
                    o2,
                ).contains(p) by {
                    let j = choose|j: int| 0 <= j < l2s@.len() && l2s@[j].0 as int == p.0 && l2s@[j].1 as int == p.1;
                    assert(j < o2.len());
                    assert(o2[j] == l2s@[j]);
                }
            }
        }
        1
    } else {
        proof {
            assert(l1_of(o1).insert(a as int) =~= l1_of(o1));
            assert(l2_of(o2).insert((a as int, b as int)) =~= l2_of(o2));
        }
        0
    }
}

/// The frames that mapping the pages `[s, e)` takes, with `per` data frames each,
/// beside the mappers recorded; the mappers they need are then recorded too.
pub(crate) fn range_frames_needed(
    l1s: &mut Vec<usize>,
    l2s: &mut Vec<(usize, usize)>,
    s: usize,
    e: usize,
    per: u128,
) -> (r: u128)
    requires
        s <= e <= VPN_LIMIT,
        per <= 1,
    ensures
        r == range_frames(l1_of(old(l1s)@), l2_of(old(l2s)@), s as int, e as int, per as int),
        (l1_of(final(l1s)@), l2_of(final(l2s)@)) == range_sets(l1_of(old(l1s)@), l2_of(old(l2s)@), s as int, e as int),
        r <= 3 * (e - s),
{
    let ghost o1 = l1_of(l1s@);
    let ghost o2 = l2_of(l2s@);
    let mut acc: u128 = 0;
    let mut v: usize = s;
    while v < e
        invariant
            s <= v <= e <= VPN_LIMIT,
            per <= 1,
            acc + range_frames(l1_of(l1s@), l2_of(l2s@), v as int, e as int, per as int) == range_frames(
                o1,
                o2,
                s as int,
                e as int,
                per as int,
            ),
            range_sets(l1_of(l1s@), l2_of(l2s@), v as int, e as int) == range_sets(o1, o2, s as int, e as int),
            acc <= 3 * (v - s),
        decreases e - v,
    {
        let ghost c1 = l1_of(l1s@);
        let ghost c2 = l2_of(l2s@);
        proof {
            assert(vpn_key(v) == v);
            lemma_range_frames_step(c1, c2, v, e, per as int);
            assert(v as int % VPN_LIMIT as int == v);
            assert(range_sets(c1, c2, v as int, e as int) == range_sets(
                c1.insert(index0(v as int)),
                c2.insert((index0(v as int), index1(v as int))),
                v + 1,
                e as int,
            ));
        }
        let m = page_mapper_frames(l1s, l2s, v);
        acc = acc + m + per;
        v = v + 1;
    }
    acc
}

/// Recording `a` once more adds it to the recorded root entries.
proof fn lemma_l1_of_push(l1s: Seq<usize>, a: usize)
    ensures
        l1_of(l1s.push(a)) == l1_of(l1s).insert(a as int),
{
    let t = l1s.push(a);
    assert(t[l1s.len() as int] == a);
    assert forall|x: int| l1_of(l1s).contains(x) implies l1_of(t).contains(x) by {
        let j = choose|j: int| 0 <= j < l1s.len() && l1s[j] as int == x;
        assert(t[j] == l1s[j]);
    }
    assert forall|x: int| l1_of(t).contains(x) && x != a implies l1_of(l1s).contains(x) by {
        let j = choose|j: int| 0 <= j < t.len() && t[j] as int == x;
        assert(j < l1s.len());
        assert(l1s[j] == t[j]);
    }
    assert(l1_of(t) =~= l1_of(l1s).insert(a as int));
}

/// Recording `(a, b)` once more adds it to the recorded entry pairs.
proof fn lemma_l2_of_push(l2s: Seq<(usize, usize)>, a: usize, b: usize)
    ensures
        l2_of(l2s.push((a, b))) == l2_of(l2s).insert((a as int, b as int)),
{
    let t = l2s.push((a, b));
    assert(t[l2s.len() as int] == (a, b));
    assert forall|p: (int, int)| l2_of(l2s).contains(p) implies l2_of(t).contains(p) by {
        let j = choose|j: int| 0 <= j < l2s.len() && l2s[j].0 as int == p.0 && l2s[j].1 as int == p.1;
        assert(t[j] == l2s[j]);
    }
    assert forall|p: (int, int)| l2_of(t).contains(p) && p != (a as int, b as int) implies l2_of(l2s).contains(p) by {
        let j = choose|j: int| 0 <= j < t.len() && t[j].0 as int == p.0 && t[j].1 as int == p.1;
        assert(j < l2s.len());
        assert(l2s[j] == t[j]);
    }
    assert(l2_of(t) =~= l2_of(l2s).insert((a as int, b as int)));
}

/// The frames that mapping the pages `[s, e)` into `pt` one after the other takes,
/// with `per` data frames each.
pub(crate) fn frames_to_map(pt: &PageTable, s: usize, e: usize, per: u128) -> (r: u128)
    requires
        pt.wf(),
        s <= e,
        per <= 1,
    ensures
        r == range_frames(pt.l1_set(), pt.l2_set(), s as int, e as int, per as int),
{
    let mut l1s: Vec<usize> = Vec::new();
    let mut l2s: Vec<(usize, usize)> = Vec::new();
    let ghost o1 = pt.l1_set();
    let ghost o2 = pt.l2_set();
    proof {
        assert(o1 + l1_of(l1s@) =~= o1);
        assert(o2 + l2_of(l2s@) =~= o2);
    }
    let mut acc: u128 = 0;
    let mut v: usize = s;
    while v < e
        invariant
            pt.wf(),
            o1 == pt.l1_set(),
            o2 == pt.l2_set(),
            s <= v <= e,
            per <= 1,
            acc + range_frames(o1 + l1_of(l1s@), o2 + l2_of(l2s@), v as int, e as int, per as int) == range_frames(
                o1,
                o2,
                s as int,
                e as int,
                per as int,
            ),
            acc <= 3 * (v - s),
        decreases e - v,
    {
        let ghost c1 = o1 + l1_of(l1s@);
        let ghost c2 = o2 + l2_of(l2s@);
        let k = v % 0x800_0000;
        let a = k / 0x4_0000 % 512;
        let b = k / 512 % 512;
        proof {
            assert(vpn_key(v) == k);
            assert(a as int == index0(k as int) && b as int == index1(k as int));
            lemma_range_frames_step(c1, c2, v, e, per as int);
        }
        let in1 = pt.has_l1(a) || has_entry(&l1s, a);
        let in2 = pt.has_l2(a, b) || has_pair(&l2s, a, b);
        let m: u128 = if !in1 {
            2
        } else if !in2 {
            1
        } else {
            0
        };
        let ghost p1 = l1s@;
        let ghost p2 = l2s@;
        l1s.push(a);
        l2s.push((a, b));
        proof {
            lemma_l1_of_push(p1, a);
            lemma_l2_of_push(p2, a, b);
            assert(o1 + l1_of(l1s@) =~= c1.insert(index0(k as int)));
            assert(o2 + l2_of(l2s@) =~= c2.insert((index0(k as int), index1(k as int))));
            assert(m == frames_for(c1, c2, k));
        }
        acc = acc + m + per;
        v = v + 1;
    }
    acc
}

} // verus!
