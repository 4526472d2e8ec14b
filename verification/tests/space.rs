use std::collections::BTreeSet;

use frontier::allocator::BTreeSetFrameAllocator;
use frontier::area::AreaMapping;
use frontier::configs::{KERNEL_GUARD_PAGE_COUNT, KERNEL_TASK_STACK_BYTE_SIZE, MEMORY_PAGE_BYTE_SIZE};
use frontier::error::KernelError;
use frontier::page_table::PageTableFlags;
use frontier::space::{
    convert_flags, get_kernel_task_stack_top_va, get_kernel_task_stack_vpn_range, get_task_trap_ctx_vpn_range,
    get_user_task_stack_top_va, get_user_task_stack_vpn_range, trampoline_virtual_page_number, vpn_ceil, vpn_floor,
    KernelLayout, Space, MAX_TASK_ID,
};

fn frames(count: usize) -> BTreeSetFrameAllocator {
    let mut frames = BTreeSetFrameAllocator::new();
    frames.init(0x90000, 0x90000 + count);
    frames
}

#[test]
fn test_cal_kernel_task_stack_va_range() {
    let tramp = trampoline_virtual_page_number();
    let stack_pages = KERNEL_TASK_STACK_BYTE_SIZE / MEMORY_PAGE_BYTE_SIZE;
    assert_eq!(get_kernel_task_stack_vpn_range(0).1, tramp);
    assert_eq!(get_kernel_task_stack_vpn_range(0).0, tramp - stack_pages);
    assert_eq!(get_kernel_task_stack_vpn_range(1).1, tramp - stack_pages - KERNEL_GUARD_PAGE_COUNT);
    assert_eq!(get_kernel_task_stack_vpn_range(1).0, tramp - stack_pages * 2 - KERNEL_GUARD_PAGE_COUNT);
}

#[test]
fn test_space_vpn_ceil() {
    assert_eq!(vpn_ceil(0), 0);
    assert_eq!(vpn_ceil(1), 1);
    assert_eq!(vpn_ceil(MEMORY_PAGE_BYTE_SIZE - 1), 1);
    assert_eq!(vpn_ceil(MEMORY_PAGE_BYTE_SIZE), 1);
    assert_eq!(vpn_ceil(MEMORY_PAGE_BYTE_SIZE + 1), 2);
}

#[test]
fn test_space_vpn_floor() {
    assert_eq!(vpn_floor(0), 0);
    assert_eq!(vpn_floor(1), 0);
    assert_eq!(vpn_floor(MEMORY_PAGE_BYTE_SIZE - 1), 0);
    assert_eq!(vpn_floor(MEMORY_PAGE_BYTE_SIZE), 1);
    assert_eq!(vpn_floor(MEMORY_PAGE_BYTE_SIZE + 1), 1);
}

#[test]
fn task_ranges() {
    let tramp = trampoline_virtual_page_number();
    assert_eq!(get_kernel_task_stack_top_va(0), usize::MAX - 4095);
    assert_eq!(get_task_trap_ctx_vpn_range(0), (tramp - 1, tramp));
    assert_eq!(get_task_trap_ctx_vpn_range(2), (tramp - 3, tramp - 2));
    assert_eq!(get_user_task_stack_vpn_range(0x10000, 0), (0x11, 0x19));
    assert_eq!(get_user_task_stack_vpn_range(0x10000, 1), (0x1a, 0x22));
    assert_eq!(get_user_task_stack_top_va(0x10000, 0), 0x19000);
}

#[test]
fn user_stacks_have_guard_pages_between() {
    for tid in 0..4usize {
        let (s, e) = get_user_task_stack_vpn_range(0x10800, tid);
        assert_eq!(e - s, 8);
        assert_eq!(s, 0x11 + 1 + 9 * tid);
        assert_eq!(get_user_task_stack_vpn_range(0x10800, tid + 1).0, e + 1);
    }
}

#[test]
fn test_kernel_space_map_and_unmap_kernel_task_stack() {
    let mut frames = frames(64);
    let mut space = Space::new_bare(MAX_TASK_ID, &mut frames).unwrap();
    let tramp = trampoline_virtual_page_number();
    assert!(space.map_kernel_task_stack(3, &mut frames).is_ok());
    assert!(space.unmap_kernel_task_stack(3, &mut frames).is_ok());
    assert!(space.map_kernel_task_stack(3, &mut frames).is_ok_and(|vpn| vpn
        == tramp - 3 * (KERNEL_GUARD_PAGE_COUNT + (KERNEL_TASK_STACK_BYTE_SIZE / MEMORY_PAGE_BYTE_SIZE))));
    assert!(space.map_kernel_task_stack(3, &mut frames).is_err());
    assert!(space.unmap_kernel_task_stack(3, &mut frames).is_ok());
    assert_eq!(space.unmap_kernel_task_stack(3, &mut frames), Err(KernelError::AreaDeallocFailed(tramp - 11, tramp - 9)));
}

#[test]
fn space_areas_and_translation() {
    let mut frames = frames(64);
    let mut space = Space::new_bare(1, &mut frames).unwrap();
    assert!(space.alloc_task_trap_ctx(0, &mut frames).is_ok());
    let tramp = trampoline_virtual_page_number();
    let area = space.get_area(tramp - 1, tramp).unwrap();
    assert_eq!(area.mapping(), AreaMapping::Framed);
    assert_eq!(area.flags().bits(), PageTableFlags::rw().bits());
    assert!(space.get_area(0, 1).is_err_and(|e| e == KernelError::AreaNotExists(0, 1)));
    assert!(space.alloc_user_task_stack(0x10000, 0, &mut frames).is_ok());
    assert_eq!(space.alloc_user_task_stack(0x10000, 0, &mut frames), Err(KernelError::AreaAllocFailed(0x11, 0x19)));
    let pa = space.translate_pa(0x11000 + 5).unwrap();
    assert_eq!(pa % MEMORY_PAGE_BYTE_SIZE, 5);
    assert_eq!(space.translate_pa(0x20000), None);
    assert!(space.dealloc_user_task_stack(0x10000, 0, &mut frames).is_ok());
    assert_eq!(space.translate_pa(0x11000), None);
    assert!(space.dealloc_task_trap_ctx(0, &mut frames).is_ok());
    assert_eq!(space.dealloc_task_trap_ctx(0, &mut frames), Err(KernelError::AreaDeallocFailed(tramp - 1, tramp)));
}

#[test]
fn space_trampoline_is_mapped_once() {
    let mut frames = frames(16);
    let mut space = Space::new_bare(2, &mut frames).unwrap();
    assert_eq!(space.map_trampoline(0x80200, &mut frames), Ok(()));
    assert_eq!(space.translate_pa(usize::MAX - 4095 + 3), Some(0x80200 * 4096 + 3));
    let tramp = trampoline_virtual_page_number();
    assert_eq!(space.map_trampoline(0x80200, &mut frames), Err(KernelError::VPNAlreadyMapped(tramp)));
    let token = space.mmu_token(&frames);
    assert_eq!(token >> 60, 8);
    assert_eq!((token >> 44) & 0xffff, 2);
}

#[test]
fn translated_byte_buffers_follow_pages() {
    let mut frames = frames(64);
    let mut space = Space::new_bare(1, &mut frames).unwrap();
    assert!(space.alloc_user_task_stack(0x10000, 0, &mut frames).is_ok());
    let buffers = space.translated_byte_buffers(0x11ffe, 4).unwrap();
    assert_eq!(buffers.len(), 4);
    assert_eq!(buffers.into_slices(), vec![vec![0u8; 2], vec![0u8; 2]]);
    assert!(space
        .translated_byte_buffers(0x18ffe, 4)
        .is_err_and(|e| e == KernelError::VPNNotMapped(0x19)));
    assert_eq!(space.translated_byte_buffers(0x5000, 0).unwrap().len(), 0);
}

#[test]
fn elf_flags_convert_to_page_flags() {
    assert_eq!(convert_flags(0b100).bits(), PageTableFlags::r().bits());
    assert_eq!(convert_flags(0b101).bits(), PageTableFlags::rx().bits());
    assert_eq!(convert_flags(0b110).bits(), PageTableFlags::rw().bits());
    assert_eq!(convert_flags(0).bits(), 0);
}

fn small_layout() -> KernelLayout {
    KernelLayout {
        mmio: vec![(0x1000_0000, 0x1000_1000)],
        text: (0x8020_0000, 0x8020_2000),
        rodata: (0x8020_2000, 0x8020_3000),
        data: (0x8020_3000, 0x8020_4000),
        bootstack: (0x8020_4000, 0x8020_4000),
        bss: (0x8020_4000, 0x8020_5000),
        free_mem: (0x8020_5000, 0x8020_8000),
    }
}

#[test]
fn kernel_space_maps_sections_identically() {
    let mut frames = frames(64);
    let space = Space::new_kernel(&small_layout(), 0x80100, &mut frames).unwrap();
    assert_eq!(space.translate_pa(0x8020_1234), Some(0x8020_1234));
    assert_eq!(space.translate_pa(0x1000_0008), Some(0x1000_0008));
    assert_eq!(space.translate_pa(0x8020_7fff), Some(0x8020_7fff));
    assert_eq!(space.translate_pa(0x8020_8000), None);
    assert_eq!(space.translate_pa(usize::MAX - 4095), Some(0x80100 * 4096));
    assert_eq!(space.get_area(0x80200, 0x80202).unwrap().flags().bits(), PageTableFlags::rx().bits());
    assert_eq!(space.get_area(0x80202, 0x80203).unwrap().flags().bits(), PageTableFlags::r().bits());
    assert_eq!(space.get_area(0x80204, 0x80205).unwrap().mapping(), AreaMapping::Identical);
}

#[test]
fn kernel_space_without_enough_frames_is_refused() {
    // the root mapper, two mappers for the device page, two for the kernel sections
    // and two for the trampoline
    let mut few = frames(6);
    assert!(Space::new_kernel(&small_layout(), 0x80100, &mut few).is_err_and(|e| e == KernelError::FrameExhausted));
    assert_eq!(few.current_ppn(), 0x90000);
    let mut enough = frames(7);
    assert!(Space::new_kernel(&small_layout(), 0x80100, &mut enough).is_ok());
    assert_eq!(enough.alloc_ppn(), Err(KernelError::FrameExhausted));
}

#[test]
fn kernel_space_refuses_overlapping_sections() {
    let mut frames = frames(64);
    let mut layout = small_layout();
    layout.rodata = (0x8020_1000, 0x8020_3000);
    assert!(Space::new_kernel(&layout, 0x80100, &mut frames).is_err_and(|e| e == KernelError::AreaAllocFailed(0x80201, 0x80203)));
}

#[test]
fn user_space_copies_areas_and_data() {
    let mut frames = frames(128);
    let mut space = Space::new_bare(1, &mut frames).unwrap();
    assert!(space.alloc_user_task_stack(0x10000, 0, &mut frames).is_ok());
    assert!(space.alloc_task_trap_ctx(0, &mut frames).is_ok());
    let copy = Space::new_user_from_another(2, &space, None, 0x80100, &mut frames).unwrap();
    assert!(copy.get_area(0x11, 0x19).is_ok());
    let tramp = trampoline_virtual_page_number();
    assert!(copy.get_area(tramp - 1, tramp).is_ok());
    assert_ne!(copy.translate_pa(0x11000), space.translate_pa(0x11000));

    let mut exclude = BTreeSet::new();
    exclude.insert((tramp - 1, tramp));
    let partial = Space::new_user_from_another(3, &space, Some(&exclude), 0x80100, &mut frames).unwrap();
    assert!(partial.get_area(0x11, 0x19).is_ok());
    assert!(partial.get_area(tramp - 1, tramp).is_err());
    assert_eq!(partial.translate_pa(usize::MAX - 4095), Some(0x80100 * 4096));
}

#[test]
fn copying_a_space_takes_exactly_its_frames() {
    // the source: a root mapper, two mappers and eight stack pages
    let mut frames = frames(24);
    let mut space = Space::new_bare(1, &mut frames).unwrap();
    assert!(space.alloc_user_task_stack(0x10000, 0, &mut frames).is_ok());
    // the copy: a root mapper, two mappers and eight stack pages, two mappers for the trampoline
    let copy = Space::new_user_from_another(2, &space, None, 0x80100, &mut frames).unwrap();
    assert!(copy.get_area(0x11, 0x19).is_ok());
    assert_eq!(frames.alloc_ppn(), Err(KernelError::FrameExhausted));
}

#[test]
fn recycling_data_pages_keeps_frames_balanced() {
    let mut frames = frames(64);
    let mut space = Space::new_bare(1, &mut frames).unwrap();
    assert!(space.alloc_user_task_stack(0x10000, 0, &mut frames).is_ok());
    let next = frames.current_ppn();
    space.recycle_data_pages(&mut frames);
    assert_eq!(space.translate_pa(0x11000), None);
    assert!(space.get_area(0x11, 0x19).is_err());
    // the eight data frames and the two emptied mappers come back
    for _ in 0..10 {
        let ppn = frames.alloc_ppn().unwrap();
        assert!(ppn < next);
    }
    assert_eq!(frames.alloc_ppn(), Ok(next));
}

#[test]
fn releasing_a_space_gives_its_frames_back() {
    let mut frames = frames(64);
    let mut space = Space::new_bare(1, &mut frames).unwrap();
    assert!(space.alloc_user_task_stack(0x10000, 0, &mut frames).is_ok());
    assert!(space.map_trampoline(0x80200, &mut frames).is_ok());
    let taken = frames.current_ppn() - 0x90000;
    assert!(taken >= 9);
    space.release(&mut frames);
    for k in 0..taken {
        assert_eq!(frames.alloc_ppn(), Ok(0x90000 + k));
    }
}

#[test]
fn written_bytes_are_read_back() {
    let mut frames = frames(64);
    let mut space = Space::new_bare(1, &mut frames).unwrap();
    assert!(space.alloc_user_task_stack(0x10000, 0, &mut frames).is_ok());
    let data: Vec<u8> = (0..6000u32).map(|i| (i % 250) as u8 + 1).collect();
    assert_eq!(space.write_bytes_at(0x11ff0, &data), Ok(()));
    let back: Vec<u8> = space.translated_byte_buffers(0x11ff0, data.len()).unwrap().into_slices().concat();
    assert_eq!(back, data);
    assert_eq!(space.write_bytes_at(0x18ffe, b"abc"), Err(KernelError::VPNNotMapped(0x19)));
    assert_eq!(space.translated_byte_buffers(0x18ffe, 2).unwrap().into_slices().concat(), vec![0u8, 0]);
    assert_eq!(space.write_bytes_at(0x12000, b"hi\0"), Ok(()));
    assert_eq!(space.translated_string(0x12000), Ok(String::from("hi")));
}
