use frontier::allocator::{BTreeSetFrameAllocator, LinkedListPageRangeAllocator};
use frontier::area::{Area, AreaMapping};
use frontier::configs::{MEMORY_PAGE_BYTE_SIZE, TRAMPOLINE_VIRTUAL_BASE_ADDR};
use frontier::error::KernelError;
use frontier::frame::{alloc_frame, dealloc_frame, FrameTracker};
use frontier::page_table::{
    cal_base_va_with, get_pa_offset, get_ppn_with, get_va_offset, get_vpn_with, PTEFlags, PageTable,
    PageTableEntry, PageTableFlags, PTE_COUNT,
};
use frontier::space::max_virtual_page_number;

fn frames(count: usize) -> BTreeSetFrameAllocator {
    let mut frames = BTreeSetFrameAllocator::new();
    frames.init(0x80000, 0x80000 + count);
    frames
}

#[test]
fn test_page_range_alloctor_alloc_and_dealloc() {
    let mut alloctor = LinkedListPageRangeAllocator::new(0, 1);
    assert!(alloctor.allocate(0, 1).is_some());
    assert!(alloctor.allocate(0, 1).is_none());
    assert!(alloctor.dealloc(0, 1).is_some());
    assert!(alloctor.dealloc(0, 1).is_none());
    assert!(alloctor.allocate(0, 1).is_some());
    assert!(alloctor.allocate(0, 1).is_none());
    assert!(alloctor.dealloc(0, 1).is_some());
    assert!(alloctor.dealloc(0, 1).is_none());

    assert!(alloctor.allocate(0, 0).is_none());
    assert!(alloctor.dealloc(0, 0).is_none());
    assert!(alloctor.allocate(0, 2).is_none());
    assert!(alloctor.dealloc(0, 2).is_none());
    assert!(alloctor.allocate(1, 1).is_none());
    assert!(alloctor.dealloc(1, 1).is_none());
    assert!(alloctor.allocate(1, 2).is_none());
    assert!(alloctor.dealloc(1, 2).is_none());
    assert!(alloctor.allocate(2, 2).is_none());
    assert!(alloctor.dealloc(2, 2).is_none());
    assert!(alloctor.allocate(2, 3).is_none());
    assert!(alloctor.dealloc(2, 3).is_none());
    assert!(alloctor.allocate(3, 2).is_none());
    assert!(alloctor.dealloc(3, 2).is_none());

    let mut alloctor = LinkedListPageRangeAllocator::new(0, 6);
    assert!(alloctor.allocate(0, 1).is_some());
    assert!(alloctor.allocate(2, 3).is_some());
    assert!(alloctor.allocate(1, 2).is_some());
    assert!(alloctor.dealloc(1, 2).is_some());
    assert!(alloctor.dealloc(0, 1).is_some());
    assert!(alloctor.dealloc(2, 3).is_some());

    assert!(alloctor.allocate(0, 1).is_some());
    assert!(alloctor.allocate(0, 2).is_none());
    assert!(alloctor.dealloc(0, 2).is_none());
    assert!(alloctor.dealloc(0, 1).is_some());
    assert!(alloctor.allocate(2, 5).is_some());
    assert!(alloctor.allocate(3, 4).is_none());
    assert!(alloctor.allocate(2, 3).is_none());
    assert!(alloctor.allocate(4, 5).is_none());
    assert!(alloctor.allocate(1, 3).is_none());
    assert!(alloctor.allocate(0, 3).is_none());
    assert!(alloctor.allocate(4, 6).is_none());
}

#[test]
fn page_range_allocator_partial_dealloc_then_realloc() {
    let mut alloctor = LinkedListPageRangeAllocator::new(10, 20);
    assert!(alloctor.allocate(9, 11).is_none());
    assert!(alloctor.allocate(19, 21).is_none());
    assert!(alloctor.allocate(10, 20).is_some());
    assert!(alloctor.dealloc(12, 15).is_some());
    assert!(alloctor.allocate(11, 13).is_none());
    assert!(alloctor.allocate(12, 15).is_some());
    assert!(alloctor.dealloc(10, 20).is_some());
    assert!(alloctor.dealloc(15, 16).is_none());
}

#[test]
fn test_frame_allocator_alloc_and_dealloc() {
    let mut allocator = BTreeSetFrameAllocator::new();
    allocator.init(0, 1);
    assert_eq!(allocator.current_ppn(), 0);
    assert_eq!(allocator.end_ppn(), 1);
    assert!(allocator.alloc_ppn().is_ok_and(|t| t == 0));
    assert_eq!(allocator.current_ppn(), 1);
    assert_eq!(allocator.end_ppn(), 1);
    assert!(allocator.alloc_ppn().is_err_and(|t| t == KernelError::FrameExhausted));
    assert!(allocator.dealloc(0).is_ok());
    assert!(allocator.alloc_ppn().is_ok_and(|t| t == 0));
    assert_eq!(allocator.current_ppn(), 1);
    assert_eq!(allocator.end_ppn(), 1);
    assert!(allocator.alloc_ppn().is_err_and(|t| t == KernelError::FrameExhausted));
}

#[test]
fn frame_allocator_reuses_smallest_released_frame() {
    let mut allocator = frames(4);
    assert_eq!(allocator.alloc_ppn(), Ok(0x80000));
    assert_eq!(allocator.alloc_ppn(), Ok(0x80001));
    assert_eq!(allocator.alloc_ppn(), Ok(0x80002));
    assert_eq!(allocator.dealloc(0x80002), Ok(()));
    assert_eq!(allocator.dealloc(0x80000), Ok(()));
    assert_eq!(allocator.dealloc(0x80000), Err(KernelError::FrameNotDeallocable(0x80000)));
    assert_eq!(allocator.dealloc(0x80003), Err(KernelError::FrameNotDeallocable(0x80003)));
    assert_eq!(allocator.alloc_ppn(), Ok(0x80000));
    assert_eq!(allocator.alloc_ppn(), Ok(0x80002));
    assert_eq!(allocator.alloc_ppn(), Ok(0x80003));
    assert_eq!(allocator.alloc_ppn(), Err(KernelError::FrameExhausted));
}

#[test]
fn frame_tracker_is_cleared_and_written() {
    let mut allocator = frames(1);
    let mut tracker = alloc_frame(&mut allocator).unwrap();
    assert_eq!(tracker.ppn(), 0x80000);
    assert_eq!(tracker.pa(), 0x80000 * MEMORY_PAGE_BYTE_SIZE);
    assert!(tracker.get_byte_array().iter().all(|b| *b == 0));
    assert_eq!(tracker.get_byte_array().len(), MEMORY_PAGE_BYTE_SIZE);
    tracker.write_bytes(10, &[1, 2, 3]);
    assert_eq!(&tracker.get_byte_array()[9..14], &[0, 1, 2, 3, 0]);
    tracker.clear();
    assert!(tracker.get_byte_array().iter().all(|b| *b == 0));
    assert!(alloc_frame(&mut allocator).is_err_and(|e| e == KernelError::FrameExhausted));
    assert_eq!(dealloc_frame(&mut allocator, tracker), Ok(()));
    assert_eq!(dealloc_frame(&mut allocator, FrameTracker::new(0x80000)), Err(KernelError::FrameNotDeallocable(0x80000)));
}

#[test]
fn test_pte_is_valid() {
    assert!(!PageTableEntry::empty().is_valid());
    assert!(!PageTableEntry::new(0, PTEFlags { bits: PTEFlags::R }).is_valid());
    assert!(PageTableEntry::new(0, PTEFlags { bits: PTEFlags::V }).is_valid());
}

#[test]
fn test_pte_ppn() {
    assert_eq!(PageTableEntry::empty().ppn(), 0);
    assert_eq!(PageTableEntry::new(0, PTEFlags { bits: PTEFlags::V }).ppn(), 0);
    assert_eq!(PageTableEntry::new(1, PTEFlags { bits: PTEFlags::V }).ppn(), 1);
    assert_ne!(PageTableEntry::new(1, PTEFlags { bits: PTEFlags::V }).ppn(), 2);
}

#[test]
fn test_pte_flags() {
    assert_eq!(PageTableEntry::empty().flags().bits(), 0);
    assert_eq!(PageTableEntry::new(0, PTEFlags { bits: PTEFlags::V }).flags().bits(), PTEFlags::V);
    assert_eq!(PageTableEntry::new(0, PTEFlags { bits: PTEFlags::D }).flags().bits(), PTEFlags::D);
    assert_ne!(PageTableEntry::new(0, PTEFlags { bits: PTEFlags::D }).flags().bits(), PTEFlags::V);
}

#[test]
fn pte_keeps_ppn_and_flags_apart() {
    let pte = PageTableEntry::new(0xabcde, PTEFlags { bits: 0xff });
    assert_eq!(pte.ppn(), 0xabcde);
    assert_eq!(pte.flags().bits(), 0xff);
    assert!(pte.is_valid());
}

#[test]
fn test_pagetable_page_indexes() {
    assert_eq!(PageTable::page_indexes(0), [0; 3]);
    assert_eq!(PageTable::page_indexes(1), [0, 0, 1]);
    assert_eq!(PageTable::page_indexes(PTE_COUNT), [0, 1, 0]);
    assert_eq!(PageTable::page_indexes(PTE_COUNT - 1), [0, 0, PTE_COUNT - 1]);
    assert_eq!(PageTable::page_indexes(PTE_COUNT + 1), [0, 1, 1]);
    assert_eq!(PageTable::page_indexes(PTE_COUNT * PTE_COUNT), [1, 0, 0]);
    assert_eq!(PageTable::page_indexes(PTE_COUNT * PTE_COUNT - 1), [0, PTE_COUNT - 1, PTE_COUNT - 1]);
}

#[test]
fn test_pagetable_asid() {
    let mut allocator = frames(8);
    assert!(PageTable::new(0, &mut allocator).is_ok_and(|f| f.asid() == 0));
    assert!(PageTable::new(1, &mut allocator).is_ok_and(|f| f.asid() == 1));
    assert!(PageTable::new(2, &mut allocator).is_ok_and(|f| f.asid() == 2));
}

#[test]
fn test_pagetable_cal_base_va_with() {
    assert_eq!(cal_base_va_with(0), 0);
    assert_eq!(cal_base_va_with(1), MEMORY_PAGE_BYTE_SIZE);
    assert_eq!(cal_base_va_with(get_vpn_with(TRAMPOLINE_VIRTUAL_BASE_ADDR)), TRAMPOLINE_VIRTUAL_BASE_ADDR);
    assert_eq!(cal_base_va_with(134217727), TRAMPOLINE_VIRTUAL_BASE_ADDR)
}

#[test]
fn address_helpers_split_page_and_offset() {
    assert_eq!(get_vpn_with(0x1234_5678), 0x12345);
    assert_eq!(get_va_offset(0x1234_5678), 0x678);
    assert_eq!(get_ppn_with(0x8020_1abc), 0x80201);
    assert_eq!(get_pa_offset(0x8020_1abc), 0xabc);
    assert_eq!(max_virtual_page_number(), 134217727);
}

#[test]
fn test_pagetable_alloc_and_dealloc() {
    let mut allocator = frames(16);
    let mut page_table = PageTable::new(0, &mut allocator).unwrap();
    assert!(page_table.map_without_alloc(0, 0, PageTableFlags::r(), &mut allocator).is_ok());
    assert!(page_table.translate_ppn_with(0).is_some_and(|ppn| ppn == 0));
    assert!(page_table.unmap_without_dealloc(0, &mut allocator).is_ok_and(|ppn| ppn == 0));

    assert!(page_table.map_without_alloc(1, 1, PageTableFlags::r(), &mut allocator).is_ok());
    assert!(page_table.translate_ppn_with(1).is_some_and(|ppn| ppn == 1));
    assert!(page_table.unmap_without_dealloc(1, &mut allocator).is_ok_and(|ppn| ppn == 1));

    let trampoline_vpn = max_virtual_page_number();
    let trampoline_ppn = 0x80200;
    assert!(page_table.map_without_alloc(trampoline_vpn, trampoline_ppn, PageTableFlags::r(), &mut allocator).is_ok());
    assert!(page_table.translate_ppn_with(trampoline_vpn).is_some_and(|ppn| ppn == trampoline_ppn));
    assert!(page_table.unmap_without_dealloc(trampoline_vpn, &mut allocator).is_ok_and(|ppn| ppn == trampoline_ppn));
}

#[test]
fn test_pagetable_map_and_unmap() {
    let mut allocator = frames(16);
    let mut page_table = PageTable::new(0, &mut allocator).unwrap();
    assert!(page_table.get_tracker_with(0).is_err_and(|e| e == KernelError::VPNNotMapped(0)));
    assert!(page_table.map(0, PageTableFlags::empty(), &mut allocator).is_err_and(|e| matches!(e, KernelError::InvaidPageTablePerm(_))));
    assert!(page_table.map(0, PageTableFlags::r(), &mut allocator).is_ok());
    let mapped = page_table.translate_ppn_with(0).unwrap();
    assert!(page_table.get_tracker_with(0).is_ok_and(|tracker| tracker.ppn() == mapped));
    assert!(page_table.unmap(0, &mut allocator).is_ok());
    assert!(page_table.get_tracker_with(0).is_err_and(|e| e == KernelError::VPNNotMapped(0)));
    assert!(page_table.map(0, PageTableFlags::r(), &mut allocator).is_ok());
}

#[test]
fn test_pagetable_get_byte_array() {
    let mut allocator = frames(16);
    let mut page_table = PageTable::new(0, &mut allocator).unwrap();
    assert!(page_table.get_byte_array(0).is_err_and(|err| err == KernelError::VPNNotMapped(0)));
    assert!(page_table.map(0, PageTableFlags::r(), &mut allocator).is_ok());
    assert!(page_table.write_bytes(0, 0, &[1u8]).is_ok());
    assert!(page_table.write_bytes(0, MEMORY_PAGE_BYTE_SIZE - 1, &[1u8]).is_ok());
    let bytes = page_table.get_byte_array(0).unwrap();
    assert_eq!(bytes[0], 1u8);
    assert_eq!(bytes[MEMORY_PAGE_BYTE_SIZE - 1], 1u8);
    assert!(page_table.unmap(0, &mut allocator).is_ok());
    assert!(page_table.get_byte_array(0).is_err_and(|err| err == KernelError::VPNNotMapped(0)));
    assert!(page_table.map(0, PageTableFlags::r(), &mut allocator).is_ok());
    let bytes = page_table.get_byte_array(0).unwrap();
    assert_eq!(bytes[0], 0u8);
    assert_eq!(bytes[MEMORY_PAGE_BYTE_SIZE - 1], 0u8);
}

#[test]
fn page_table_map_twice_is_refused_and_unmap_gives_frames_back() {
    let mut allocator = frames(5);
    let mut page_table = PageTable::new(3, &mut allocator).unwrap();
    assert!(page_table.map(5, PageTableFlags::rw(), &mut allocator).is_ok());
    assert_eq!(page_table.map(5, PageTableFlags::rw(), &mut allocator), Err(KernelError::VPNAlreadyMapped(5)));
    assert!(page_table.map(6, PageTableFlags::rw(), &mut allocator).is_ok());
    assert_eq!(page_table.map(7, PageTableFlags::rw(), &mut allocator), Err(KernelError::FrameExhausted));
    let ppn = page_table.translate_ppn_with(5).unwrap();
    assert_eq!(page_table.unmap(5, &mut allocator), Ok(ppn));
    assert_eq!(page_table.unmap(5, &mut allocator), Err(KernelError::VPNNotMapped(5)));
    assert_eq!(page_table.translate_ppn_with(5), None);
}

#[test]
fn page_table_mmu_token_has_sv39_mode_and_asid() {
    let mut allocator = frames(2);
    let page_table = PageTable::new(7, &mut allocator).unwrap();
    assert_eq!(page_table.ppn(), 0x80000);
    assert_eq!(page_table.mmu_token(), (8usize << 60) | (7usize << 44) | 0x80000);
}

#[test]
fn page_table_flags_compose() {
    assert_eq!(PageTableFlags::rx().bits(), PageTableFlags::r().union(PageTableFlags::x()).bits());
    assert_eq!(PageTableFlags::rwu().bits(), 22);
    assert_eq!(PageTableFlags::rxu().bits(), 26);
    assert!(PageTableFlags::empty().is_empty());
    assert!(!PageTableFlags::w().is_empty());
    assert!(PTEFlags { bits: 0b111 }.contains(PTEFlags { bits: PTEFlags::R }));
    assert!(!PTEFlags { bits: 0b101 }.contains(PTEFlags { bits: PTEFlags::R }));
    assert!(PTEFlags::from_bits(3).is_some());
}

fn new_area(start: usize, end: usize) -> (Area, LinkedListPageRangeAllocator, PageTable, BTreeSetFrameAllocator) {
    let mut allocator = frames(64);
    let mut page_table = PageTable::new(0, &mut allocator).unwrap();
    let mut ranges = LinkedListPageRangeAllocator::new(0, max_virtual_page_number() + 1);
    let area = Area::new(start, end, PageTableFlags::r(), AreaMapping::Framed, &mut ranges, &mut page_table, &mut allocator)
        .unwrap();
    (area, ranges, page_table, allocator)
}

#[test]
fn area_new_reports_why_pages_cannot_be_mapped() {
    let mut allocator = frames(64);
    let mut page_table = PageTable::new(0, &mut allocator).unwrap();
    let mut ranges = LinkedListPageRangeAllocator::new(0, max_virtual_page_number() + 1);
    let r = Area::new(0, 1, PageTableFlags::empty(), AreaMapping::Framed, &mut ranges, &mut page_table, &mut allocator);
    assert_eq!(r.err(), Some(KernelError::InvaidPageTablePerm(0)));
    let area = Area::new(0, 1, PageTableFlags::r(), AreaMapping::Framed, &mut ranges, &mut page_table, &mut allocator)
        .unwrap();
    assert_eq!(area.range(), (0, 1));

    let mut other_ranges = LinkedListPageRangeAllocator::new(0, max_virtual_page_number() + 1);
    let before = allocator.free_frames();
    let r = Area::new(0, 2, PageTableFlags::r(), AreaMapping::Framed, &mut other_ranges, &mut page_table, &mut allocator);
    assert_eq!(r.err(), Some(KernelError::VPNAlreadyMapped(0)));
    assert_eq!(allocator.free_frames(), before);
    assert!(other_ranges.allocate(0, 2).is_some());

    let mut few = frames(3);
    let mut small_table = PageTable::new(0, &mut few).unwrap();
    let mut small_ranges = LinkedListPageRangeAllocator::new(0, max_virtual_page_number() + 1);
    let r = Area::new(0, 1, PageTableFlags::r(), AreaMapping::Framed, &mut small_ranges, &mut small_table, &mut few);
    assert_eq!(r.err(), Some(KernelError::FrameExhausted));
    assert_eq!(few.free_frames(), 2);
    assert!(small_ranges.allocate(0, 1).is_some());
}

#[test]
fn test_area_from_another() {
    let (area, mut ranges, mut page_table, mut allocator) = new_area(0, 1);
    assert!(Area::from_another(&area, &mut ranges, &mut page_table, &mut allocator).is_err());
    let mut other_page_table = PageTable::new(1, &mut allocator).unwrap();
    let mut other_ranges = LinkedListPageRangeAllocator::new(0, max_virtual_page_number() + 1);
    let result = Area::from_another(&area, &mut other_ranges, &mut other_page_table, &mut allocator);
    assert!(result.is_ok());
    let result = result.unwrap();
    assert_eq!(result.flags().bits(), area.flags().bits());
    assert_eq!(result.mapping(), area.mapping());
    assert_eq!(result.range(), area.range());
}

#[test]
fn test_area_write_page() {
    let (area, _ranges, mut page_table, _allocator) = new_area(0, 1);
    assert!(area.get_byte_array(0, &page_table).unwrap().iter().all(|b| *b == 0));
    assert!(area.write_page(0, 0, &[1u8; 2][0..2], &mut page_table).is_ok());
    assert_eq!(&area.get_byte_array(0, &page_table).unwrap()[0..4], &[1u8, 1, 0, 0][0..4]);
    assert!(area.write_page(0, 2, &[2u8; 2][0..2], &mut page_table).is_ok());
    assert_eq!(&area.get_byte_array(0, &page_table).unwrap()[0..6], &[1u8, 1, 2, 2, 0, 0][0..6]);
}

#[test]
fn test_area_write_multi_pages() {
    let (area, _ranges, mut page_table, _allocator) = new_area(0, 3);
    let zero = vec![0u8; MEMORY_PAGE_BYTE_SIZE];
    assert_eq!(area.get_byte_array(0, &page_table).unwrap(), &zero);
    assert_eq!(area.get_byte_array(1, &page_table).unwrap(), &zero);
    assert_eq!(area.get_byte_array(2, &page_table).unwrap(), &zero);
    assert!(area.write_multi_pages(0, &[1u8; 2][0..2], &mut page_table).is_ok());

    assert_eq!(&area.get_byte_array(0, &page_table).unwrap()[0..2], &[1, 1][0..2]);
    assert_eq!(area.get_byte_array(1, &page_table).unwrap(), &zero);
    assert_eq!(area.get_byte_array(2, &page_table).unwrap(), &zero);

    assert!(area.write_multi_pages(MEMORY_PAGE_BYTE_SIZE, &[1u8; 2][0..2], &mut page_table).is_ok());
    assert_eq!(&area.get_byte_array(0, &page_table).unwrap()[0..2], &[1, 1][0..2]);
    assert_eq!(&area.get_byte_array(1, &page_table).unwrap()[0..2], &[1, 1][0..2]);
    assert_eq!(area.get_byte_array(2, &page_table).unwrap(), &zero);

    assert!(area.write_multi_pages(MEMORY_PAGE_BYTE_SIZE * 2 + 1, &[1u8; 2][0..2], &mut page_table).is_ok());
    assert_eq!(&area.get_byte_array(0, &page_table).unwrap()[0..2], &[1, 1][0..2]);
    assert_eq!(&area.get_byte_array(1, &page_table).unwrap()[0..2], &[1, 1][0..2]);
    assert_eq!(&area.get_byte_array(2, &page_table).unwrap()[0..3], &[0, 1, 1][0..3]);
}

#[test]
fn area_write_multi_pages_spans_page_boundary() {
    let (area, _ranges, mut page_table, _allocator) = new_area(4, 6);
    let data: Vec<u8> = (0..(MEMORY_PAGE_BYTE_SIZE + 3)).map(|i| (i % 251) as u8 + 1).collect();
    assert!(area.write_multi_pages(0, &data, &mut page_table).is_ok());
    assert_eq!(&area.get_byte_array(4, &page_table).unwrap()[..], &data[..MEMORY_PAGE_BYTE_SIZE]);
    assert_eq!(&area.get_byte_array(5, &page_table).unwrap()[0..4], &[data[MEMORY_PAGE_BYTE_SIZE], data[MEMORY_PAGE_BYTE_SIZE + 1], data[MEMORY_PAGE_BYTE_SIZE + 2], 0]);
}

#[test]
fn area_range_helpers() {
    let (area, mut ranges, mut page_table, mut allocator) = new_area(2, 5);
    assert_eq!(area.range(), (2, 5));
    assert!(area.get_byte_array(7, &page_table).is_err_and(|e| e == KernelError::VPNNotMapped(7)));
    assert_eq!(page_table.translate_ppn_with(2).is_some(), true);
    area.release(&mut ranges, &mut page_table, &mut allocator);
    assert_eq!(page_table.translate_ppn_with(2), None);
    assert!(ranges.allocate(2, 5).is_some());
}

#[test]
fn unmapping_the_last_page_drops_its_mappers() {
    let mut allocator = frames(4);
    let mut page_table = PageTable::new(1, &mut allocator).unwrap();
    let ppn = page_table.map(0, PageTableFlags::r(), &mut allocator).unwrap();
    assert_eq!(page_table.translate_ppn_with(0), Some(ppn));
    assert_eq!(page_table.get_tracker_with(0).map(|t| t.ppn()), Ok(ppn));
    assert_eq!(allocator.alloc_ppn(), Err(KernelError::FrameExhausted));
    assert_eq!(page_table.unmap(0, &mut allocator), Ok(ppn));
    // the data frame and both mappers are free again, the smallest first
    let mut back = Vec::new();
    for _ in 0..3 {
        back.push(allocator.alloc_ppn().unwrap());
    }
    assert_eq!(back, vec![0x80001, 0x80002, 0x80003]);
    assert_eq!(allocator.alloc_ppn(), Err(KernelError::FrameExhausted));
}

#[test]
fn alloc_frame_reuses_the_smallest_released_frame() {
    let mut allocator = frames(3);
    let a = alloc_frame(&mut allocator).unwrap();
    let b = alloc_frame(&mut allocator).unwrap();
    let (pa, pb) = (a.ppn(), b.ppn());
    assert_eq!((pa, pb), (0x80000, 0x80001));
    assert_eq!(dealloc_frame(&mut allocator, b), Ok(()));
    assert_eq!(dealloc_frame(&mut allocator, a), Ok(()));
    let again = alloc_frame(&mut allocator).unwrap();
    assert_eq!(again.ppn(), pa);
    assert!(again.get_byte_array().iter().all(|&x| x == 0));
    assert_eq!(again.pa(), pa * MEMORY_PAGE_BYTE_SIZE);
}

#[test]
fn unmapping_the_only_page_gives_its_mappers_back() {
    let mut allocator = frames(8);
    let mut page_table = PageTable::new(0, &mut allocator).unwrap();
    assert_eq!(allocator.free_frames(), 7);
    assert!(page_table.map(5, PageTableFlags::r(), &mut allocator).is_ok());
    assert_eq!(allocator.free_frames(), 4);
    assert!(page_table.unmap(5, &mut allocator).is_ok());
    assert_eq!(allocator.free_frames(), 7);
    assert!(page_table.map_without_alloc(9, 0x90000, PageTableFlags::r(), &mut allocator).is_ok());
    assert_eq!(allocator.free_frames(), 5);
    assert_eq!(page_table.unmap_without_dealloc(9, &mut allocator), Ok(0x90000));
    assert_eq!(allocator.free_frames(), 7);
}
