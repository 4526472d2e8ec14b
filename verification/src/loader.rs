//! Loading a user program from an ELF image: each loadable segment becomes a framed
//! area of a new address space holding the segment's bytes, and the trampoline is
//! mapped above them.
use vstd::prelude::*;
use elf::endian::AnyEndian;
use elf::ElfBytes;
use elf::ParseError;
use crate::allocator::BTreeSetFrameAllocator;
use crate::area::{l1_of, l2_of, page_mapper_frames, range_frames, range_frames_needed, range_free, range_sets, AreaMapping};
use crate::configs::MEMORY_PAGE_BYTE_SIZE;
use crate::error::KernelError;
use crate::page_table::{frames_for, index0, index1, spec_pte_new, spec_vpn_of, vpn_key, PageTableFlags, PPN_LIMIT, VPN_LIMIT};
use crate::space::{
    convert_flags, disjoint, lemma_trampoline_is_max, lemma_vpn_bound, spec_convert_flags, spec_max_vpn, spec_trampoline_vpn,
    trampoline_virtual_page_number, vpn_ceil, vpn_floor, Space,
};

verus! {

/// The program header type of a loadable segment.
pub const PT_LOAD: u32 = 1;

/// What the loader reads of a program header.
#[derive(Clone, Copy, PartialEq, Eq, Structural, Debug)]
pub struct SegmentHeader {
    pub p_type: u32,
    pub p_flags: u32,
    pub p_offset: u64,
    pub p_vaddr: u64,
    pub p_filesz: u64,
    pub p_memsz: u64,
}

/// The entry address of an ELF image and its program headers, if it has a table.
pub struct ElfHeaders {
    pub entry: u64,
    pub segments: Option<Vec<SegmentHeader>>,
}

impl View for ElfHeaders {
    type V = (u64, Option<Seq<SegmentHeader>>);

    open spec fn view(&self) -> (u64, Option<Seq<SegmentHeader>>) {
        (
            self.entry,
            match self.segments {
                Some(v) => Some(v@),
                None => None,
            },
        )
    }
}

#[verifier::external_type_specification]
#[verifier::external_body]
pub struct ExParseError(ParseError);

/// The entry address and program headers that `elf` reads from the image `data`, or
/// `None` when it refuses the image.
pub uninterp spec fn elf_headers(data: Seq<u8>) -> Option<(u64, Option<Seq<SegmentHeader>>)>;

/// Reads the image with `elf`'s `ElfBytes::<AnyEndian>::minimal_parse`, then its entry
/// address (`ehdr.e_entry`) and its program header table (`segments()`, each entry
/// as it parses). The contract claims that the outcome depends on `data` alone,
/// which `elf_headers` names; what the parser accepts is left unsaid.
#[verifier::external_body]
fn parse_elf_headers(data: &[u8]) -> (r: Result<ElfHeaders, ParseError>)
    ensures
        r is Ok <==> elf_headers(data@) is Some,
        r matches Ok(h) ==> elf_headers(data@) == Some(h@),
{
    let file = ElfBytes::<AnyEndian>::minimal_parse(data)?;
    let mut segments = None;
    if let Some(table) = file.segments() {
        let mut headers = Vec::new();
        for p in table.iter() {
            headers.push(SegmentHeader { p_type: p.p_type, p_flags: p.p_flags, p_offset: p.p_offset,
                p_vaddr: p.p_vaddr, p_filesz: p.p_filesz, p_memsz: p.p_memsz });
        }
        segments = Some(headers);
    }
    Ok(ElfHeaders { entry: file.ehdr.e_entry, segments })
}

/// The bytes of segment `h` in the image `data`: `p_filesz` bytes from `p_offset`
/// on, when the image holds them.
pub open spec fn segment_bytes(data: Seq<u8>, h: SegmentHeader) -> Option<Seq<u8>> {
    if h.p_offset + h.p_filesz <= data.len() {
        Some(data.subrange(h.p_offset as int, h.p_offset + h.p_filesz))
    } else {
        None
    }
}

/// The bytes of segment `h` in the image `data`; `ParseElfError` when the image
/// does not hold them.
pub fn segment_data<'a>(data: &'a [u8], h: &SegmentHeader) -> (r: Result<&'a [u8], KernelError>)
    ensures
        segment_bytes(data@, *h) matches Some(b) ==> r is Ok && r->Ok_0@ == b,
        segment_bytes(data@, *h) is None ==> r == Err::<&[u8], KernelError>(KernelError::ParseElfError),
{
    let len = data.len();
    if h.p_offset > len as u64 {
        return Err(KernelError::ParseElfError);
    }
    let start = h.p_offset as usize;
    if h.p_filesz > (len - start) as u64 {
        return Err(KernelError::ParseElfError);
    }
    let end = start + h.p_filesz as usize;
    Ok(vstd::slice::slice_subrange(data, start, end))
}

/// The loadable segments of a program header table, in their order.
pub open spec fn loadable(hs: Seq<SegmentHeader>) -> Seq<SegmentHeader> {
    hs.filter(|h: SegmentHeader| h.p_type == PT_LOAD)
}

/// The addresses of segment `h` can be rounded up to pages.
pub open spec fn segment_fits(h: SegmentHeader) -> bool {
    h.p_vaddr + h.p_memsz + 4095 <= usize::MAX
}

/// The pages of segment `h`: from the page of its first address to the page after
/// its last one.
pub open spec fn segment_range(h: SegmentHeader) -> (usize, usize) {
    (spec_vpn_of(h.p_vaddr as usize), spec_vpn_of((h.p_vaddr + h.p_memsz + 4095) as usize))
}

/// The page permissions of segment `h`: its own, and user access.
pub open spec fn segment_flags(h: SegmentHeader) -> u8 {
    spec_convert_flags(h.p_flags) | 16u8
}

/// A loaded segment's pages are user pages, readable, writeable and executable each
/// exactly as its ELF permission bits say, with no other page flag set.
pub proof fn law_segment_flags(h: SegmentHeader)
    ensures
        (segment_flags(h) & 2u8 != 0) == (h.p_flags & crate::space::ELF_PF_R != 0),
        (segment_flags(h) & 4u8 != 0) == (h.p_flags & crate::space::ELF_PF_W != 0),
        (segment_flags(h) & 8u8 != 0) == (h.p_flags & crate::space::ELF_PF_X != 0),
        segment_flags(h) & 16u8 != 0,
        segment_flags(h) & 0xe1u8 == 0,
{
    crate::space::law_segment_permissions(h.p_flags);
    let c = spec_convert_flags(h.p_flags);
    assert(((c | 16u8) & 2u8 != 0) == (c & 2u8 != 0) && ((c | 16u8) & 4u8 != 0) == (c & 4u8 != 0) && ((c | 16u8)
        & 8u8 != 0) == (c & 8u8 != 0) && (c | 16u8) & 16u8 != 0 && (c | 16u8) & 0xe1u8 == 0) by (bit_vector)
        requires
            c & 0xf1u8 == 0,
    ;
}

/// Segment `i` of `ls` gets an area: its pages are not empty and meet no pages of
/// an earlier segment.
pub open spec fn placeable(ls: Seq<SegmentHeader>, i: int) -> bool {
    &&& segment_range(ls[i]).0 < segment_range(ls[i]).1
    &&& forall|j: int| 0 <= j < i ==> #[trigger] disjoint(segment_range(ls[j]), segment_range(ls[i]))
}

/// Segment `i` of `ls` is loaded from `data`: it gets an area and the image holds
/// its bytes.
pub open spec fn loads(ls: Seq<SegmentHeader>, data: Seq<u8>, i: int) -> bool {
    placeable(ls, i) && segment_bytes(data, ls[i]) is Some
}

/// Every segment before the `i`-th is loaded.
pub open spec fn reached(ls: Seq<SegmentHeader>, data: Seq<u8>, i: int) -> bool {
    forall|j: int| 0 <= j < i ==> #[trigger] loads(ls, data, j)
}

/// Loading the segments of `ls` from `data` stays within what the machine holds:
/// every segment that is reached can be rounded to pages, and every one loaded has
/// no more bytes in the image than its pages hold.
pub open spec fn load_fits(ls: Seq<SegmentHeader>, data: Seq<u8>) -> bool {
    &&& forall|i: int| 0 <= i < ls.len() && reached(ls, data, i) ==> segment_fits(#[trigger] ls[i])
    &&& forall|i: int|
        0 <= i < ls.len() && reached(ls, data, i) && loads(ls, data, i) ==> {
            &&& (segment_range(#[trigger] ls[i]).1 - segment_range(ls[i]).0) * MEMORY_PAGE_BYTE_SIZE <= usize::MAX
            &&& ls[i].p_filesz <= (segment_range(ls[i]).1 - segment_range(ls[i]).0) * MEMORY_PAGE_BYTE_SIZE
        }
}

/// Page `v` belongs to one of the first `n` segments of `ls`.
pub open spec fn in_segments(ls: Seq<SegmentHeader>, n: int, v: usize) -> bool {
    exists|j: int| 0 <= j < n && #[trigger] segment_range(ls[j]).0 <= v < segment_range(ls[j]).1
}

/// The range `k` is that of one of the first `n` segments of `ls`.
pub open spec fn is_segment_range(ls: Seq<SegmentHeader>, n: int, k: (usize, usize)) -> bool {
    exists|j: int| 0 <= j < n && #[trigger] segment_range(ls[j]) == k
}

/// The loadable segments of `hs`, in their order.
fn loadable_segments(hs: &Vec<SegmentHeader>) -> (r: Vec<SegmentHeader>)
    ensures
        r@ == loadable(hs@),
{
    let mut out: Vec<SegmentHeader> = Vec::new();
    let mut i: usize = 0;
    while i < hs.len()
        invariant
            i <= hs@.len(),
            out@ == loadable(hs@.take(i as int)),
        decreases hs@.len() - i,
    {
        let h = hs[i];
        proof {
            reveal(Seq::filter);
            assert(hs@.take(i + 1).drop_last() =~= hs@.take(i as int));
            assert(hs@.take(i + 1).last() == h);
        }
        if h.p_type == PT_LOAD {
            out.push(h);
        }
        i = i + 1;
    }
    assert(hs@.take(hs@.len() as int) =~= hs@);
    out
}

/// The pages `[u_lo, u_hi)` of segment `h` hold, from the segment's first page on,
/// the segment's bytes of `data` followed by zeros.
pub open spec fn segment_loaded(space: &Space, h: SegmentHeader, data: Seq<u8>) -> bool {
    forall|u: usize|
        segment_range(h).0 <= u < segment_range(h).1 ==> #[trigger] space.spec_page_table().trackers()[u]@
            == crate::area::page_after_write(
            crate::frame::zero_page(),
            (u - segment_range(h).0) * MEMORY_PAGE_BYTE_SIZE,
            0,
            segment_bytes(data, h)->0,
            segment_bytes(data, h)->0.len() as int,
        )
}

/// The space `space` holds exactly the segments of `ls` loaded from `data`: an area
/// for each, framed with the segment's permissions, whose pages hold its bytes, and
/// its pages are those of the segments.
pub open spec fn holds_segments(space: &Space, ls: Seq<SegmentHeader>, data: Seq<u8>, n: int) -> bool {
    &&& forall|k: (usize, usize)| #[trigger] space.areas().contains_key(k) <==> is_segment_range(ls, n, k)
    &&& forall|j: int|
        0 <= j < n ==> (#[trigger] space.areas()[segment_range(ls[j])]).spec_flags().bits == segment_flags(ls[j])
            && space.areas()[segment_range(ls[j])].spec_mapping() == AreaMapping::Framed
    &&& forall|j: int| 0 <= j < n ==> #[trigger] segment_loaded(space, ls[j], data)
    &&& forall|v: usize| #[trigger] space.spec_allocator()@.contains(v) <==> in_segments(ls, n, v)
}

/// What loading the segments `ls` of an image `data` with entry address `entry`
/// gives: the first failure in segment order, else the new space with the
/// trampoline at frame `trampoline_ppn`, the end of the last segment and the entry.
pub open spec fn load_result(
    asid: usize,
    ls: Seq<SegmentHeader>,
    data: Seq<u8>,
    entry: u64,
    trampoline_ppn: usize,
    frames: &BTreeSetFrameAllocator,
    r: Result<(Space, usize, usize), KernelError>,
) -> bool {
    &&& ls.len() == 0 ==> r == Err::<(Space, usize, usize), KernelError>(KernelError::UnloadableTask)
    &&& forall|k: int|
        0 <= k < ls.len() && reached(ls, data, k) && !#[trigger] placeable(ls, k) ==> r == Err::<
            (Space, usize, usize),
            KernelError,
        >(KernelError::AreaAllocFailed(segment_range(ls[k]).0, segment_range(ls[k]).1))
    &&& forall|k: int|
        0 <= k < ls.len() && reached(ls, data, k) && placeable(ls, k) && #[trigger] segment_bytes(data, ls[k])
            is None ==> r == Err::<(Space, usize, usize), KernelError>(KernelError::ParseElfError)
    &&& ls.len() > 0 && reached(ls, data, ls.len() as int) && in_segments(ls, ls.len() as int, spec_trampoline_vpn())
        ==> r == Err::<(Space, usize, usize), KernelError>(KernelError::VPNAlreadyMapped(spec_trampoline_vpn()))
    &&& ls.len() > 0 && reached(ls, data, ls.len() as int) && !in_segments(
        ls,
        ls.len() as int,
        spec_trampoline_vpn(),
    ) ==> {
        &&& r is Ok
        &&& r->Ok_0.0.wf_in(frames)
        &&& r->Ok_0.0.spec_page_table().spec_asid() == asid
        &&& holds_segments(&r->Ok_0.0, ls, data, ls.len() as int)
        &&& r->Ok_0.0.spec_page_table()@.contains_key(spec_trampoline_vpn())
        &&& r->Ok_0.0.spec_page_table()@[spec_trampoline_vpn()] == spec_pte_new(trampoline_ppn, 11u8)
        &&& r->Ok_0.1 == (ls.last().p_vaddr + ls.last().p_memsz) as usize
        &&& r->Ok_0.2 == entry as usize
    }
}


/// With the pages of the first `i` segments allocated, the pages of segment `i` are
/// free exactly when it can be placed.
proof fn lemma_free_iff_placeable(
    ra: &crate::allocator::LinkedListPageRangeAllocator,
    ls: Seq<SegmentHeader>,
    data: Seq<u8>,
    i: int,
)
    requires
        0 <= i < ls.len(),
        reached(ls, data, i),
        ra.start() == 0,
        ra.end() == spec_max_vpn() + 1,
        forall|v: usize| #[trigger] ra@.contains(v) <==> in_segments(ls, i, v),
    ensures
        range_free(ra, segment_range(ls[i]).0, segment_range(ls[i]).1) <==> placeable(ls, i),
{
    let r = segment_range(ls[i]);
    lemma_vpn_bound((ls[i].p_vaddr + ls[i].p_memsz + 4095) as usize);
    if range_free(ra, r.0, r.1) {
        assert forall|j: int| 0 <= j < i implies #[trigger] disjoint(segment_range(ls[j]), r) by {
            let q = segment_range(ls[j]);
            assert(loads(ls, data, j));
            if !disjoint(q, r) {
                let v: usize = if q.0 < r.0 { r.0 } else { q.0 };
                assert(in_segments(ls, i, v));
                assert(ra@.contains(v));
            }
        }
    }
    if placeable(ls, i) {
        assert forall|v: usize| r.0 <= v < r.1 implies !#[trigger] ra@.contains(v) by {
            if ra@.contains(v) {
                let j = choose|j: int| 0 <= j < i && #[trigger] segment_range(ls[j]).0 <= v < segment_range(ls[j]).1;
                assert(disjoint(segment_range(ls[j]), r));
            }
        }
    }
}


/// When every segment before the `i`-th is loaded and the `i`-th is not, the `i`-th
/// is the only reached segment that fails, and loading does not get past it.
proof fn lemma_first_failure(ls: Seq<SegmentHeader>, data: Seq<u8>, i: int)
    requires
        0 <= i < ls.len(),
        reached(ls, data, i),
        !loads(ls, data, i),
    ensures
        forall|k: int| 0 <= k < ls.len() && reached(ls, data, k) && !#[trigger] placeable(ls, k) ==> k == i,
        forall|k: int|
            0 <= k < ls.len() && reached(ls, data, k) && placeable(ls, k) && #[trigger] segment_bytes(data, ls[k])
                is None ==> k == i,
        !reached(ls, data, ls.len() as int),
{
    assert forall|k: int| 0 <= k < ls.len() && reached(ls, data, k) && !loads(ls, data, k) implies k == i by {
        if k < i {
            assert(loads(ls, data, k));
        } else if k > i {
            assert(loads(ls, data, i));
        }
    }
    assert forall|k: int| 0 <= k < ls.len() && reached(ls, data, k) && !#[trigger] placeable(ls, k) implies k == i by {
        assert(!loads(ls, data, k));
    }
    assert forall|k: int|
        0 <= k < ls.len() && reached(ls, data, k) && placeable(ls, k) && #[trigger] segment_bytes(data, ls[k])
            is None implies k == i by {
        assert(!loads(ls, data, k));
    }
    if reached(ls, data, ls.len() as int) {
        assert(loads(ls, data, i));
    }
}

/// Adding the area of the `i`-th segment and writing its bytes into it extends what
/// the space holds from the first `i` segments to the first `i + 1`.
#[verifier::spinoff_prover]
proof fn lemma_holds_step(sp0: Space, sp1: Space, sp2: Space, ls: Seq<SegmentHeader>, data: Seq<u8>, i: int)
    requires
        0 <= i < ls.len(),
        reached(ls, data, i),
        loads(ls, data, i),
        sp0.wf(),
        holds_segments(&sp0, ls, data, i),
        ({
            let r = segment_range(ls[i]);
            &&& sp1.areas() == sp0.areas().insert(r, sp1.areas()[r])
            &&& sp1.areas()[r].spec_flags().bits == segment_flags(ls[i])
            &&& sp1.areas()[r].spec_mapping() == AreaMapping::Framed
            &&& sp1.spec_allocator()@ == sp0.spec_allocator()@.union(Set::new(|v: usize| r.0 <= v < r.1))
            &&& forall|w: usize| !(r.0 <= w < r.1) ==> #[trigger] sp1.spec_page_table().trackers().contains_key(w)
                == sp0.spec_page_table().trackers().contains_key(w)
            &&& forall|w: usize| !(r.0 <= w < r.1) && sp0.spec_page_table().trackers().contains_key(w)
                ==> #[trigger] sp1.spec_page_table().trackers()[w] == sp0.spec_page_table().trackers()[w]
            &&& forall|v: usize| r.0 <= v < r.1 ==> #[trigger] sp1.spec_page_table().trackers()[v]@ == crate::frame::zero_page()
            &&& sp2.areas() == sp1.areas()
            &&& sp2.spec_allocator() == sp1.spec_allocator()
            &&& forall|w: usize| !(r.0 <= w < r.1) ==> #[trigger] sp2.spec_page_table().trackers()[w]
                == sp1.spec_page_table().trackers()[w]
            &&& sp1.areas()[r].pages_written(
                &sp1.spec_page_table(),
                &sp2.spec_page_table(),
                0,
                segment_bytes(data, ls[i])->0,
                segment_bytes(data, ls[i])->0.len() as int,
            )
            &&& sp1.areas()[r].spec_start() == r.0
            &&& sp1.areas()[r].spec_end() == r.1
        }),
    ensures
        holds_segments(&sp2, ls, data, i + 1),
{
    let r = segment_range(ls[i]);
    assert(placeable(ls, i));
    assert forall|k: (usize, usize)| #[trigger] sp2.areas().contains_key(k) <==> is_segment_range(ls, i + 1, k) by {
        if k == r {
            assert(segment_range(ls[i]) == k);
        } else if is_segment_range(ls, i + 1, k) {
            let j = choose|j: int| 0 <= j < i + 1 && #[trigger] segment_range(ls[j]) == k;
            assert(j != i);
            assert(is_segment_range(ls, i, k));
        }
        if sp0.areas().contains_key(k) {
            assert(is_segment_range(ls, i, k));
            let j = choose|j: int| 0 <= j < i && #[trigger] segment_range(ls[j]) == k;
            assert(segment_range(ls[j]) == k);
        }
    }
    assert forall|j: int| 0 <= j < i implies segment_range(#[trigger] ls[j]) != r by {
        assert(disjoint(segment_range(ls[j]), r));
        assert(loads(ls, data, j));
    }
    assert forall|j: int| 0 <= j < i + 1 implies (#[trigger] sp2.areas()[segment_range(ls[j])]).spec_flags().bits
        == segment_flags(ls[j]) && sp2.areas()[segment_range(ls[j])].spec_mapping() == AreaMapping::Framed by {
        if j < i {
            assert(segment_range(ls[j]) != r);
            assert(sp0.areas()[segment_range(ls[j])] == (#[trigger] sp0.areas()[segment_range(ls[j])]));
        }
    }
    assert forall|j: int| 0 <= j < i + 1 implies #[trigger] segment_loaded(&sp2, ls[j], data) by {
        let q = segment_range(ls[j]);
        if j < i {
            assert(loads(ls, data, j));
            assert(disjoint(q, r));
            assert(segment_loaded(&sp0, ls[j], data));
            assert(sp0.areas().contains_key(q)) by {
                assert(is_segment_range(ls, i, q));
            }
            assert(crate::space::area_ok(sp0.areas(), &sp0.spec_page_table(), &sp0.spec_allocator(), q));
            assert forall|u: usize| q.0 <= u < q.1 implies #[trigger] sp2.spec_page_table().trackers()[u]@
                == crate::area::page_after_write(
                crate::frame::zero_page(),
                (u - q.0) * MEMORY_PAGE_BYTE_SIZE,
                0,
                segment_bytes(data, ls[j])->0,
                segment_bytes(data, ls[j])->0.len() as int,
            ) by {
                assert(!(r.0 <= u < r.1));
                assert(sp0.areas()[q].spec_start() == q.0 && sp0.areas()[q].spec_end() == q.1);
                assert(sp0.areas()[q].spec_mapping() == AreaMapping::Framed);
                assert(sp0.spec_page_table()@.contains_key(vpn_key(u)));
                assert(sp0.spec_page_table().trackers().contains_key(u));
                assert(sp1.spec_page_table().trackers()[u] == sp0.spec_page_table().trackers()[u]);
                assert(sp2.spec_page_table().trackers()[u] == sp1.spec_page_table().trackers()[u]);
            }
        } else {
            assert forall|u: usize| r.0 <= u < r.1 implies #[trigger] sp2.spec_page_table().trackers()[u]@
                == crate::area::page_after_write(
                crate::frame::zero_page(),
                (u - r.0) * MEMORY_PAGE_BYTE_SIZE,
                0,
                segment_bytes(data, ls[i])->0,
                segment_bytes(data, ls[i])->0.len() as int,
            ) by {
                assert(sp1.spec_page_table().trackers()[u]@ == crate::frame::zero_page());
                assert(sp2.spec_page_table().trackers()[u].spec_ppn() == sp1.spec_page_table().trackers()[u].spec_ppn());
            }
        }
    }
    assert forall|v: usize| #[trigger] sp2.spec_allocator()@.contains(v) <==> in_segments(ls, i + 1, v) by {
        if r.0 <= v < r.1 {
            assert(segment_range(ls[i]).0 <= v < segment_range(ls[i]).1);
        }
        if in_segments(ls, i + 1, v) {
            let j = choose|j: int| 0 <= j < i + 1 && #[trigger] segment_range(ls[j]).0 <= v < segment_range(ls[j]).1;
            if j < i {
                assert(in_segments(ls, i, v));
            }
        }
        if sp0.spec_allocator()@.contains(v) {
            assert(in_segments(ls, i, v));
            let j = choose|j: int| 0 <= j < i && #[trigger] segment_range(ls[j]).0 <= v < segment_range(ls[j]).1;
            assert(segment_range(ls[j]).0 <= v < segment_range(ls[j]).1);
        }
    }
}

impl Space {
    /// A user space with the loadable segments among the program headers `headers`
    /// of the image `data`: each becomes a framed area of user pages with the
    /// segment's permissions that holds the segment's bytes from its first page on,
    /// and the trampoline is mapped to frame `trampoline_ppn`. Returns the space, the
    /// end address of the last loadable segment and the entry address.
    /// `InvalidHeadlessTask` without a program header table, `UnloadableTask` without
    /// a loadable segment, then, segment by segment, `AreaAllocFailed` when its pages
    /// are empty or meet an earlier segment's and `ParseElfError` when the image does
    /// not hold its bytes, and last `VPNAlreadyMapped` when a segment covers the
    /// trampoline page. `FrameExhausted` when no frame is left for the root mapper;
    /// otherwise the frames that loading takes (`elf_frames`) must be there.
    #[verifier::rlimit(60)]
    pub fn new_user_from_elf_headers(
        asid: usize,
        headers: &ElfHeaders,
        data: &[u8],
        trampoline_ppn: usize,
        frames: &mut BTreeSetFrameAllocator,
    ) -> (r: Result<(Space, usize, usize), KernelError>)
        requires
            old(frames).wf(),
            old(frames).spec_end_ppn() <= PPN_LIMIT,
            trampoline_ppn < PPN_LIMIT,
            headers.segments matches Some(hs) ==> load_fits(loadable(hs@), data@) && (old(frames).available() > 0
                ==> old(frames).available() >= 1 + elf_frames(loadable(hs@), data@, 0, Set::empty(), Set::empty())),
        ensures
            final(frames).wf(),
            r is Err ==> forall|f: usize| #[trigger] final(frames).handed_out(f) == old(frames).handed_out(f),
            r is Ok ==> crate::space::frames_since(&r->Ok_0.0, &*old(frames), &*final(frames)),
            headers.segments is None ==> r == Err::<(Space, usize, usize), KernelError>(
                KernelError::InvalidHeadlessTask,
            ),
            headers.segments is Some && loadable(headers.segments->0@).len() > 0 && old(frames).available() == 0
                ==> r == Err::<(Space, usize, usize), KernelError>(KernelError::FrameExhausted),
            headers.segments is Some && (loadable(headers.segments->0@).len() == 0 || old(frames).available() > 0)
                ==> load_result(
                asid,
                loadable(headers.segments->0@),
                data@,
                headers.entry,
                trampoline_ppn,
                &*final(frames),
                r,
            ),
    {
        let hs = match &headers.segments {
            Some(hs) => hs,
            None => return Err(KernelError::InvalidHeadlessTask),
        };
        let segs = loadable_segments(hs);
        let ghost ls = segs@;
        if segs.len() == 0 {
            return Err(KernelError::UnloadableTask);
        }
        let mut space = match Space::new_bare(asid, frames) {
            Ok(s) => s,
            Err(e) => return Err(e),
        };
        proof {
            assert forall|k: (usize, usize)| #[trigger] space.areas().contains_key(k) <==> is_segment_range(ls, 0, k) by {
            }
            assert forall|v: usize| #[trigger] space.spec_allocator()@.contains(v) <==> in_segments(ls, 0, v) by {
            }
        }
        let mut max_end_va: usize = 0;
        let mut i: usize = 0;
        while i < segs.len()
            invariant
                headers.segments == Some(*hs),
                ls == segs@,
                ls == loadable(hs@),
                ls.len() > 0,
                0 <= i <= ls.len(),
                load_fits(ls, data@),
                reached(ls, data@, i as int),
                frames.wf(),
                frames.spec_end_ppn() <= PPN_LIMIT,
                trampoline_ppn < PPN_LIMIT,
                space.wf_in(&*frames),
                space.spec_page_table().spec_asid() == asid,
                holds_segments(&space, ls, data@, i as int),
                forall|k: usize| #[trigger] space.spec_page_table()@.contains_key(k) <==> space.spec_allocator()@.contains(k),
                old(frames).available() > 0,
                frames.available() >= elf_frames(ls, data@, i as int, space.spec_page_table().l1_set(), space.spec_page_table().l2_set()),
                crate::space::frames_since(&space, &*old(frames), &*frames),
                i > 0 ==> max_end_va == (ls[i - 1].p_vaddr + ls[i - 1].p_memsz) as usize,
            decreases ls.len() - i,
        {
            let h = segs[i];
            proof {
                assert(segment_fits(ls[i as int]));
            }
            let end_va: u64 = h.p_vaddr + h.p_memsz;
            let start_vpn = vpn_floor(h.p_vaddr as usize);
            let end_vpn = vpn_ceil(end_va as usize);
            let flags = convert_flags(h.p_flags).union(PageTableFlags::u());
            let ghost sp0 = space;
            let ghost f0 = *frames;
            proof {
                assert(start_vpn == segment_range(h).0 && end_vpn == segment_range(h).1);
                lemma_vpn_bound(h.p_vaddr as usize);
                lemma_vpn_bound((h.p_vaddr + h.p_memsz + 4095) as usize);
                lemma_free_iff_placeable(&sp0.spec_allocator(), ls, data@, i as int);
                let fl = spec_convert_flags(h.p_flags);
                assert((fl | 16u8) != 0u8) by (bit_vector);
                lemma_elf_frames_nonneg(
                    ls,
                    data@,
                    i + 1,
                    range_sets(sp0.spec_page_table().l1_set(), sp0.spec_page_table().l2_set(), start_vpn as int, end_vpn as int).0,
                    range_sets(sp0.spec_page_table().l1_set(), sp0.spec_page_table().l2_set(), start_vpn as int, end_vpn as int).1,
                );
                if range_free(&sp0.spec_allocator(), start_vpn, end_vpn) {
                    assert forall|v: usize| start_vpn <= v < end_vpn implies !#[trigger] sp0.spec_page_table()@.contains_key(
                        vpn_key(v),
                    ) by {
                        assert(vpn_key(v) == v);
                        assert(!sp0.spec_allocator()@.contains(v));
                    }
                    assert forall|v: usize| start_vpn <= v < end_vpn implies !#[trigger] sp0.spec_page_table().trackers().contains_key(
                        v,
                    ) by {
                        assert(!sp0.spec_allocator()@.contains(v));
                    }
                }
            }
            match space.insert_area(start_vpn, end_vpn, flags, AreaMapping::Framed, frames) {
                Ok(()) => {},
                Err(e) => {
                    proof {
                        assert(!placeable(ls, i as int));
                        lemma_first_failure(ls, data@, i as int);
                    }
                    let ghost f1 = *frames;
                    let ghost s1 = space;
                    space.release(frames);
                    proof {
                        crate::space::law_release_restores(&s1, &*old(frames), &f1, &*frames);
                    }
                    return Err(e);
                },
            }
            let ghost sp1 = space;
            proof {
                crate::space::lemma_frames_since_step(&sp0, &sp1, &*old(frames), &f0, &*frames);
            }
            let bytes = match segment_data(data, &h) {
                Ok(b) => b,
                Err(e) => {
                    proof {
                        assert(placeable(ls, i as int));
                        lemma_first_failure(ls, data@, i as int);
                    }
                    let ghost f1 = *frames;
                    space.release(frames);
                    proof {
                        crate::space::law_release_restores(&sp1, &*old(frames), &f1, &*frames);
                    }
                    return Err(e);
                },
            };
            proof {
                assert(loads(ls, data@, i as int));
                assert(reached(ls, data@, i as int) && loads(ls, data@, i as int));
            }
            space.write_area((start_vpn, end_vpn), bytes);
            proof {
                crate::space::lemma_frames_since_step(&sp1, &space, &*old(frames), &*frames, &*frames);
                lemma_holds_step(sp0, sp1, space, ls, data@, i as int);
                assert(reached(ls, data@, i + 1)) by {
                    assert forall|j: int| 0 <= j < i + 1 implies #[trigger] loads(ls, data@, j) by {
                        if j < i {
                            assert(loads(ls, data@, j));
                        }
                    }
                }
            }
            max_end_va = end_va as usize;
            i = i + 1;
        }
        let ghost sp2 = space;
        proof {
            assert(ls.skip(ls.len() as int) =~= Seq::<SegmentHeader>::empty());
            crate::page_table::PageTable::lemma_needed_bound(sp2.spec_page_table(), spec_trampoline_vpn());
            assert(sp2.spec_page_table()@.contains_key(spec_trampoline_vpn()) <==> in_segments(
                ls,
                ls.len() as int,
                spec_trampoline_vpn(),
            ));
        }
        proof {
            assert forall|k: int| 0 <= k < ls.len() implies #[trigger] placeable(ls, k) && segment_bytes(data@, ls[k])
                is Some by {
                assert(loads(ls, data@, k));
            }
        }
        let ghost f2 = *frames;
        match space.map_trampoline(trampoline_ppn, frames) {
            Ok(()) => {},
            Err(e) => {
                proof {
                    assert(sp2.spec_page_table()@.contains_key(spec_trampoline_vpn()));
                    assert(in_segments(ls, ls.len() as int, spec_trampoline_vpn()));
                    assert(e == KernelError::VPNAlreadyMapped(spec_trampoline_vpn()));
                    crate::space::lemma_frames_since_step(&sp2, &space, &*old(frames), &f2, &*frames);
                }
                let ghost s3 = space;
                let ghost f3 = *frames;
                space.release(frames);
                proof {
                    crate::space::law_release_restores(&s3, &*old(frames), &f3, &*frames);
                }
                return Err(e);
            },
        }
        proof {
            crate::space::lemma_frames_since_step(&sp2, &space, &*old(frames), &f2, &*frames);
        }
        proof {
            assert forall|j: int| 0 <= j < ls.len() implies #[trigger] segment_loaded(&space, ls[j], data@) by {
                assert(segment_loaded(&sp2, ls[j], data@));
            }
            assert(ls.last() == ls[ls.len() - 1]);
        }
        Ok((space, max_end_va, headers.entry as usize))
    }
}


/// Whether the addresses of segment `h` can be rounded up to pages.
fn fits_exec(h: &SegmentHeader) -> (r: bool)
    ensures
        r == segment_fits(*h),
{
    (h.p_vaddr as u128) + (h.p_memsz as u128) + 4095 <= (usize::MAX as u128)
}

/// The pages of segment `h`, whose addresses can be rounded up to pages.
fn range_exec(h: &SegmentHeader) -> (r: (usize, usize))
    requires
        segment_fits(*h),
    ensures
        r == segment_range(*h),
        r.0 <= spec_max_vpn(),
        r.1 <= spec_max_vpn(),
{
    proof {
        lemma_vpn_bound(h.p_vaddr as usize);
        lemma_vpn_bound((h.p_vaddr + h.p_memsz + 4095) as usize);
    }
    let end_va: u64 = h.p_vaddr + h.p_memsz;
    (vpn_floor(h.p_vaddr as usize), vpn_ceil(end_va as usize))
}

/// Whether loading the segments `ls` from `data` stays within what the machine
/// holds.
fn check_load_fits(ls: &Vec<SegmentHeader>, data: &[u8]) -> (r: bool)
    ensures
        r == load_fits(ls@, data@),
{
    let mut i: usize = 0;
    while i < ls.len()
        invariant
            0 <= i <= ls@.len(),
            reached(ls@, data@, i as int),
            forall|k: int| 0 <= k < i ==> segment_fits(#[trigger] ls@[k]),
            forall|k: int|
                0 <= k < i ==> {
                    &&& (segment_range(#[trigger] ls@[k]).1 - segment_range(ls@[k]).0) * MEMORY_PAGE_BYTE_SIZE
                        <= usize::MAX
                    &&& ls@[k].p_filesz <= (segment_range(ls@[k]).1 - segment_range(ls@[k]).0)
                        * MEMORY_PAGE_BYTE_SIZE
                },
        decreases ls@.len() - i,
    {
        let h = ls[i];
        if !fits_exec(&h) {
            return false;
        }
        let (s, e) = range_exec(&h);
        let mut placed = s < e;
        let mut j: usize = 0;
        while j < i
            invariant
                0 <= j <= i < ls@.len(),
                h == ls@[i as int],
                (s, e) == segment_range(h),
                forall|k: int| 0 <= k < i ==> segment_fits(#[trigger] ls@[k]),
                placed == (s < e && forall|k: int| 0 <= k < j ==> #[trigger] disjoint(segment_range(ls@[k]), (s, e))),
            decreases i - j,
        {
            let (s2, e2) = range_exec(&ls[j]);
            if !(e2 <= s || e <= s2) {
                placed = false;
            }
            proof {
                assert(disjoint(segment_range(ls@[j as int]), (s, e)) == (e2 <= s || e <= s2));
                if placed {
                    assert forall|k: int| 0 <= k < j + 1 implies #[trigger] disjoint(segment_range(ls@[k]), (s, e)) by {
                        if k < j {
                            assert(disjoint(segment_range(ls@[k]), (s, e)));
                        }
                    }
                }
            }
            j = j + 1;
        }
        let len = data.len();
        let held = h.p_offset <= len as u64 && h.p_filesz <= (len as u64) - h.p_offset;
        proof {
            assert(placed == placeable(ls@, i as int));
            assert(held == (segment_bytes(data@, h) is Some));
        }
        if !(placed && held) {
            proof {
                assert(!loads(ls@, data@, i as int));
                assert forall|k: int| 0 <= k < ls@.len() && reached(ls@, data@, k) implies k <= i by {
                    if k > i {
                        assert(loads(ls@, data@, i as int));
                    }
                }
            }
            return true;
        }
        let pages = e - s;
        if pages > usize::MAX / 4096 {
            proof {
                assert(pages * 4096 > usize::MAX) by (nonlinear_arith)
                    requires
                        pages > usize::MAX / 4096,
                ;
            }
            return false;
        }
        proof {
            assert(pages * 4096 <= usize::MAX) by (nonlinear_arith)
                requires
                    pages <= usize::MAX / 4096,
            ;
        }
        if h.p_filesz > (pages * 4096) as u64 {
            return false;
        }
        proof {
            assert(loads(ls@, data@, i as int));
            assert forall|k: int| 0 <= k < i + 1 implies #[trigger] loads(ls@, data@, k) by {
                if k < i {
                    assert(reached(ls@, data@, i as int));
                }
            }
        }
        i = i + 1;
    }
    true
}

/// The frames that loading the segments of `ls` from the `i`-th on takes, one after
/// the other, when the mappers for the root entries `l1` and entry pairs `l2` exist:
/// the mappers and a data frame for each page of each segment that gets an area,
/// then the mappers of the trampoline page. Nothing is loaded after a segment that
/// cannot be placed or whose bytes the image lacks, nor the trampoline when a
/// segment covers it.
pub open spec fn elf_frames(ls: Seq<SegmentHeader>, data: Seq<u8>, i: int, l1: Set<int>, l2: Set<(int, int)>) -> int
    decreases ls.len() - i,
{
    if i >= ls.len() {
        if in_segments(ls, ls.len() as int, spec_trampoline_vpn()) {
            0
        } else {
            frames_for(l1, l2, spec_trampoline_vpn())
        }
    } else if !placeable(ls, i) {
        0
    } else {
        let r = segment_range(ls[i]);
        let here = range_frames(l1, l2, r.0 as int, r.1 as int, 1);
        if segment_bytes(data, ls[i]) is None {
            here
        } else {
            let sets = range_sets(l1, l2, r.0 as int, r.1 as int);
            here + elf_frames(ls, data, i + 1, sets.0, sets.1)
        }
    }
}

proof fn lemma_elf_frames_nonneg(ls: Seq<SegmentHeader>, data: Seq<u8>, i: int, l1: Set<int>, l2: Set<(int, int)>)
    ensures
        elf_frames(ls, data, i, l1, l2) >= 0,
    decreases ls.len() - i,
{
    if i < ls.len() && placeable(ls, i) {
        let r = segment_range(ls[i]);
        let sets = range_sets(l1, l2, r.0 as int, r.1 as int);
        lemma_elf_frames_nonneg(ls, data, i + 1, sets.0, sets.1);
        crate::area::lemma_range_frames_bound(l1, l2, r.0 as int, r.1 as int, 1);
    }
}

/// The frames that loading `ls` from `data` into a new space takes: its root mapper
/// and what `elf_frames` counts.
fn elf_frames_needed(ls: &Vec<SegmentHeader>, data: &[u8]) -> (r: u128)
    requires
        load_fits(ls@, data@),
    ensures
        r == 1 + elf_frames(ls@, data@, 0, Set::empty(), Set::empty()),
{
    let mut l1s: Vec<usize> = Vec::new();
    let mut l2s: Vec<(usize, usize)> = Vec::new();
    let mut acc: u128 = 1;
    let mut i: usize = 0;
    proof {
        assert(l1_of(l1s@) =~= Set::<int>::empty());
        assert(l2_of(l2s@) =~= Set::<(int, int)>::empty());
    }
    while i < ls.len()
        invariant
            0 <= i <= ls@.len(),
            load_fits(ls@, data@),
            reached(ls@, data@, i as int),
            acc + elf_frames(ls@, data@, i as int, l1_of(l1s@), l2_of(l2s@)) == 1 + elf_frames(
                ls@,
                data@,
                0,
                Set::empty(),
                Set::empty(),
            ),
            acc <= 1 + 0x1800_0000 * i,
        decreases ls@.len() - i,
    {
        let h = ls[i];
        proof {
            assert(segment_fits(ls@[i as int]));
            assert forall|k: int| 0 <= k < i implies segment_fits(#[trigger] ls@[k]) by {
                assert(reached(ls@, data@, k)) by {
                    assert forall|j: int| 0 <= j < k implies #[trigger] loads(ls@, data@, j) by {
                        assert(loads(ls@, data@, j));
                    }
                }
            }
        }
        let (s, e) = range_exec(&h);
        let mut placed = s < e;
        let mut j: usize = 0;
        while j < i
            invariant
                0 <= j <= i < ls@.len(),
                h == ls@[i as int],
                (s, e) == segment_range(h),
                forall|k: int| 0 <= k < i ==> segment_fits(#[trigger] ls@[k]),
                placed == (s < e && forall|k: int| 0 <= k < j ==> #[trigger] disjoint(segment_range(ls@[k]), (s, e))),
            decreases i - j,
        {
            let (s2, e2) = range_exec(&ls[j]);
            if !(e2 <= s || e <= s2) {
                placed = false;
            }
            proof {
                assert(disjoint(segment_range(ls@[j as int]), (s, e)) == (e2 <= s || e <= s2));
                if placed {
                    assert forall|k: int| 0 <= k < j + 1 implies #[trigger] disjoint(segment_range(ls@[k]), (s, e)) by {
                        if k < j {
                            assert(disjoint(segment_range(ls@[k]), (s, e)));
                        }
                    }
                }
            }
            j = j + 1;
        }
        proof {
            assert(placed == placeable(ls@, i as int));
        }
        if !placed {
            return acc;
        }
        proof {
            lemma_vpn_bound(h.p_vaddr as usize);
            lemma_vpn_bound((h.p_vaddr + h.p_memsz + 4095) as usize);
        }
        let ghost c1 = l1_of(l1s@);
        let ghost c2 = l2_of(l2s@);
        let here = range_frames_needed(&mut l1s, &mut l2s, s, e, 1);
        acc = acc + here;
        let len = data.len();
        let held = h.p_offset <= len as u64 && h.p_filesz <= (len as u64) - h.p_offset;
        proof {
            assert(held == (segment_bytes(data@, h) is Some));
        }
        if !held {
            return acc;
        }
        proof {
            assert(loads(ls@, data@, i as int));
            assert forall|k: int| 0 <= k < i + 1 implies #[trigger] loads(ls@, data@, k) by {
                if k < i {
                    assert(reached(ls@, data@, i as int));
                }
            }
        }
        i = i + 1;
    }
    let t = trampoline_virtual_page_number();
    let mut covered = false;
    let mut j: usize = 0;
    proof {
        assert forall|k: int| 0 <= k < ls@.len() implies segment_fits(#[trigger] ls@[k]) by {
            assert(reached(ls@, data@, k)) by {
                assert forall|j2: int| 0 <= j2 < k implies #[trigger] loads(ls@, data@, j2) by {
                    assert(loads(ls@, data@, j2));
                }
            }
        }
    }
    while j < ls.len()
        invariant
            0 <= j <= ls@.len(),
            t == spec_trampoline_vpn(),
            forall|k: int| 0 <= k < ls@.len() ==> segment_fits(#[trigger] ls@[k]),
            covered == in_segments(ls@, j as int, t),
        decreases ls@.len() - j,
    {
        let (s2, e2) = range_exec(&ls[j]);
        if s2 <= t && t < e2 {
            covered = true;
        }
        proof {
            if covered && !(s2 <= t && t < e2) {
                let k = choose|k: int| 0 <= k < j && #[trigger] segment_range(ls@[k]).0 <= t < segment_range(ls@[k]).1;
                assert(0 <= k < j + 1);
            }
            if s2 <= t && t < e2 {
                assert(segment_range(ls@[j as int]).0 <= t < segment_range(ls@[j as int]).1);
            }
            if in_segments(ls@, j + 1, t) {
                let k = choose|k: int| 0 <= k < j + 1 && #[trigger] segment_range(ls@[k]).0 <= t < segment_range(ls@[k]).1;
                if k < j {
                    assert(in_segments(ls@, j as int, t));
                }
            }
        }
        j = j + 1;
    }
    if covered {
        return acc;
    }
    proof {
        lemma_trampoline_is_max();
    }
    let m = page_mapper_frames(&mut l1s, &mut l2s, t);
    acc + m
}


impl Space {
    /// Loads the image `data` as `new_user_from_elf_headers` does, with the entry
    /// address and program headers that `elf` reads from it; `ParseElfError` when
    /// `elf` refuses the image. `FrameExhausted`, with nothing changed, when fewer
    /// frames are left to hand out (released ones included) than loading takes.
    /// `None`, with nothing changed, when the image has loadable segments and loading
    /// them would go beyond what the machine holds (a segment whose addresses cannot
    /// be rounded to pages, or that has more bytes than pages).
    pub fn new_user_from_elf(
        asid: usize,
        data: &[u8],
        trampoline_ppn: usize,
        frames: &mut BTreeSetFrameAllocator,
    ) -> (r: Option<Result<(Space, usize, usize), KernelError>>)
        requires
            old(frames).wf(),
            old(frames).spec_end_ppn() <= PPN_LIMIT,
            trampoline_ppn < PPN_LIMIT,
        ensures
            final(frames).wf(),
            r is Some && r->0 is Err ==> forall|f: usize| #[trigger] final(frames).handed_out(f) == old(
                frames,
            ).handed_out(f),
            r is Some && r->0 is Ok ==> crate::space::frames_since(&r->0->Ok_0.0, &*old(frames), &*final(frames)),
            elf_headers(data@) is None ==> r == Some(Err::<(Space, usize, usize), KernelError>(KernelError::ParseElfError))
                && *final(frames) == *old(frames),
            elf_headers(data@) is Some && elf_headers(data@).unwrap().1 is None ==> r == Some(
                Err::<(Space, usize, usize), KernelError>(KernelError::InvalidHeadlessTask),
            ),
            elf_headers(data@) is Some && elf_headers(data@).unwrap().1 is Some ==> {
                let p = elf_headers(data@).unwrap();
                let ls = loadable(p.1->0);
                let fits = ls.len() == 0 || load_fits(ls, data@);
                let enough = ls.len() == 0 || old(frames).available() >= 1 + elf_frames(
                    ls,
                    data@,
                    0,
                    Set::empty(),
                    Set::empty(),
                );
                &&& fits && enough ==> r is Some && load_result(asid, ls, data@, p.0, trampoline_ppn, &*final(frames), r->0)
                &&& fits && !enough ==> r == Some(Err::<(Space, usize, usize), KernelError>(KernelError::FrameExhausted))
                    && *final(frames) == *old(frames)
                &&& !fits ==> r is None && *final(frames) == *old(frames)
            },
    {
        let headers = match parse_elf_headers(data) {
            Ok(h) => h,
            Err(_) => return Some(Err(KernelError::ParseElfError)),
        };
        match &headers.segments {
            None => {
                return Some(Err(KernelError::InvalidHeadlessTask));
            },
            Some(hs) => {
                let segs = loadable_segments(hs);
                if segs.len() == 0 {
                    return Some(Err(KernelError::UnloadableTask));
                }
                if !check_load_fits(&segs, data) {
                    return None;
                }
                if frames.free_frames() < elf_frames_needed(&segs, data) {
                    return Some(Err(KernelError::FrameExhausted));
                }
                proof {
                    lemma_elf_frames_nonneg(segs@, data@, 0, Set::empty(), Set::empty());
                }
            },
        }
        Some(Space::new_user_from_elf_headers(asid, &headers, data, trampoline_ppn, frames))
    }
}


/// The bytes of a loaded segment read back at its addresses: the byte `k` places
/// after the start of the segment's first page is the segment's `k`-th byte of the
/// image, or zero past them.
pub proof fn law_segment_reads_back(space: &Space, h: SegmentHeader, data: Seq<u8>, k: int)
    requires
        segment_loaded(space, h, data),
        segment_bytes(data, h) is Some,
        0 <= k < (segment_range(h).1 - segment_range(h).0) * MEMORY_PAGE_BYTE_SIZE,
        segment_range(h).1 * MEMORY_PAGE_BYTE_SIZE <= usize::MAX,
    ensures
        crate::space::va_byte(&space.spec_page_table(), segment_range(h).0 * MEMORY_PAGE_BYTE_SIZE + k) == if k
            < segment_bytes(data, h)->0.len() {
            segment_bytes(data, h)->0[k]
        } else {
            0u8
        },
{
    let s = segment_range(h).0 as int;
    let e = segment_range(h).1 as int;
    let a = s * 4096 + k;
    let u = s + k / 4096;
    let j = k % 4096;
    lemma_vpn_bound((h.p_vaddr + h.p_memsz + 4095) as usize);
    assert(a / 4096 == u && a % 4096 == j && s <= u < e && 0 <= j < 4096 && (u - s) * 4096 + j == k)
        by (nonlinear_arith)
        requires
            a == s * 4096 + k,
            u == s + k / 4096,
            j == k % 4096,
            0 <= k < (e - s) * 4096,
            0 <= s,
    ;
    crate::page_table::lemma_vpn_of(a as usize);
    crate::page_table::lemma_offset_of(a as usize);
    vstd::arithmetic::div_mod::lemma_small_mod(u as nat, 0x800_0000nat);
    assert(spec_vpn_of(a as usize) == u as usize);
    assert(space.spec_page_table().trackers()[u as usize]@ == crate::area::page_after_write(
        crate::frame::zero_page(),
        (u - s) * MEMORY_PAGE_BYTE_SIZE,
        0,
        segment_bytes(data, h)->0,
        segment_bytes(data, h)->0.len() as int,
    ));
}

} // verus!
