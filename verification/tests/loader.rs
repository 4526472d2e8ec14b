use frontier::allocator::BTreeSetFrameAllocator;
use frontier::error::KernelError;
use frontier::loader::{segment_data, ElfHeaders, SegmentHeader, PT_LOAD};
use frontier::page_table::PageTableFlags;
use frontier::space::{trampoline_virtual_page_number, Space};

struct Segment {
    p_type: u32,
    p_flags: u32,
    vaddr: u64,
    memsz: u64,
    bytes: Vec<u8>,
}

fn push_u16(v: &mut Vec<u8>, x: u16) {
    v.extend_from_slice(&x.to_le_bytes());
}

fn push_u32(v: &mut Vec<u8>, x: u32) {
    v.extend_from_slice(&x.to_le_bytes());
}

fn push_u64(v: &mut Vec<u8>, x: u64) {
    v.extend_from_slice(&x.to_le_bytes());
}

fn image(entry: u64, segments: &[Segment], with_table: bool) -> Vec<u8> {
    let mut v = vec![0x7f, b'E', b'L', b'F', 2, 1, 1, 0, 0, 0, 0, 0, 0, 0, 0, 0];
    push_u16(&mut v, 2);
    push_u16(&mut v, 0xf3);
    push_u32(&mut v, 1);
    push_u64(&mut v, entry);
    push_u64(&mut v, if with_table { 64 } else { 0 });
    push_u64(&mut v, 0);
    push_u32(&mut v, 0);
    push_u16(&mut v, 64);
    push_u16(&mut v, 56);
    push_u16(&mut v, segments.len() as u16);
    push_u16(&mut v, 64);
    push_u16(&mut v, 0);
    push_u16(&mut v, 0);
    let mut offset = 64 + 56 * segments.len() as u64;
    for s in segments {
        push_u32(&mut v, s.p_type);
        push_u32(&mut v, s.p_flags);
        push_u64(&mut v, offset);
        push_u64(&mut v, s.vaddr);
        push_u64(&mut v, s.vaddr);
        push_u64(&mut v, s.bytes.len() as u64);
        push_u64(&mut v, s.memsz);
        push_u64(&mut v, 0x1000);
        offset += s.bytes.len() as u64;
    }
    for s in segments {
        v.extend_from_slice(&s.bytes);
    }
    v
}

fn frames(count: usize) -> BTreeSetFrameAllocator {
    let mut frames = BTreeSetFrameAllocator::new();
    frames.init(0xa0000, 0xa0000 + count);
    frames
}

fn text(bytes: &[u8]) -> Segment {
    Segment { p_type: PT_LOAD, p_flags: 0b101, vaddr: 0x10000, memsz: 0x1800, bytes: bytes.to_vec() }
}

#[test]
fn elf_image_is_loaded_segment_by_segment() {
    let data = image(
        0x10004,
        &[
            text(b"hello\0world"),
            Segment { p_type: 4, p_flags: 0b100, vaddr: 0x50000, memsz: 0x10, bytes: vec![1, 2] },
            Segment { p_type: PT_LOAD, p_flags: 0b110, vaddr: 0x20000, memsz: 0x10, bytes: vec![9, 8, 7] },
        ],
        true,
    );
    let mut frames = frames(128);
    let (space, end_va, entry) = Space::new_user_from_elf(5, &data, 0x80100, &mut frames).unwrap().unwrap();
    assert_eq!(end_va, 0x20010);
    assert_eq!(entry, 0x10004);
    let area = space.get_area(0x10, 0x12).unwrap();
    assert_eq!(area.flags().bits(), PageTableFlags::rxu().bits());
    assert_eq!(space.get_area(0x20, 0x21).unwrap().flags().bits(), PageTableFlags::rwu().bits());
    assert!(space.get_area(0x50, 0x51).is_err());
    assert_eq!(space.translated_string(0x10000), Ok(String::from("hello")));
    assert_eq!(space.translated_string(0x10006), Ok(String::from("world")));
    let bytes = space.translated_byte_buffers(0x20000, 4).unwrap().into_slices();
    assert_eq!(bytes, vec![vec![9u8, 8, 7, 0]]);
    assert_eq!(space.translated_string(0x11ffe), Ok(String::new()));
    assert_eq!(space.translate_pa(usize::MAX - 4095), Some(0x80100 * 4096));
    assert_eq!(space.translated_string(0x30000), Err(KernelError::VPNNotMapped(0x30)));
}

#[test]
fn elf_image_errors() {
    let mut frames = frames(128);
    assert!(matches!(Space::new_user_from_elf(1, b"not an elf image", 0x80100, &mut frames), Some(Err(KernelError::ParseElfError))));
    let headless = image(0, &[text(b"x")], false);
    assert!(matches!(Space::new_user_from_elf(1, &headless, 0x80100, &mut frames), Some(Err(KernelError::InvalidHeadlessTask))));
    let notes = image(0, &[Segment { p_type: 4, p_flags: 0, vaddr: 0, memsz: 0, bytes: vec![] }], true);
    assert!(matches!(Space::new_user_from_elf(1, &notes, 0x80100, &mut frames), Some(Err(KernelError::UnloadableTask))));
    let overlapping = image(0, &[text(b"a"), Segment { p_type: PT_LOAD, p_flags: 4, vaddr: 0x11000, memsz: 0x10, bytes: vec![] }], true);
    assert!(matches!(Space::new_user_from_elf(1, &overlapping, 0x80100, &mut frames), Some(Err(KernelError::AreaAllocFailed(0x11, 0x12)))));
    let empty = image(0, &[Segment { p_type: PT_LOAD, p_flags: 4, vaddr: 0x3000, memsz: 0, bytes: vec![] }], true);
    assert!(matches!(Space::new_user_from_elf(1, &empty, 0x80100, &mut frames), Some(Err(KernelError::AreaAllocFailed(3, 3)))));
    let mut truncated = image(0, &[text(b"abcdef")], true);
    truncated.truncate(truncated.len() - 2);
    assert!(matches!(Space::new_user_from_elf(1, &truncated, 0x80100, &mut frames), Some(Err(KernelError::ParseElfError))));
}

#[test]
fn elf_image_beyond_the_machine_is_not_loaded() {
    // two pages: the root mapper, two mappers and two data frames, then two mappers
    // for the trampoline
    let data = image(0, &[text(b"abc")], true);
    let mut few = frames(6);
    assert!(matches!(Space::new_user_from_elf(1, &data, 0x80100, &mut few), Some(Err(KernelError::FrameExhausted))));
    assert_eq!(few.current_ppn(), 0xa0000);
    let mut enough = frames(7);
    assert!(matches!(Space::new_user_from_elf(1, &data, 0x80100, &mut enough), Some(Ok(_))));
    let big = image(0, &[Segment { p_type: PT_LOAD, p_flags: 4, vaddr: 0x10000, memsz: 0x10, bytes: vec![0; 0x1001] }], true);
    let mut frames = frames(64);
    assert!(Space::new_user_from_elf(1, &big, 0x80100, &mut frames).is_none());
}

#[test]
fn elf_image_loads_into_released_frames() {
    let data = image(0, &[text(b"abc")], true);
    let mut frames = frames(7);
    for k in 0..7 {
        assert_eq!(frames.alloc_ppn(), Ok(0xa0000 + k));
    }
    for k in 0..7 {
        assert_eq!(frames.dealloc(0xa0000 + k), Ok(()));
    }
    assert_eq!(frames.current_ppn(), frames.end_ppn());
    assert!(matches!(Space::new_user_from_elf(1, &data, 0x80100, &mut frames), Some(Ok(_))));
}

#[test]
fn elf_headers_load_without_parsing() {
    let data = vec![1u8, 2, 3, 4, 5, 6];
    let header = SegmentHeader { p_type: PT_LOAD, p_flags: 0b110, p_offset: 2, p_vaddr: 0x4000, p_filesz: 3, p_memsz: 0x10 };
    assert_eq!(segment_data(&data, &header), Ok(&data[2..5]));
    assert_eq!(segment_data(&data, &SegmentHeader { p_offset: 5, ..header }), Err(KernelError::ParseElfError));
    let headers = ElfHeaders { entry: 0x4000, segments: Some(vec![header]) };
    let mut frames = frames(64);
    let (space, end_va, entry) = Space::new_user_from_elf_headers(3, &headers, &data, 0x80100, &mut frames).unwrap();
    assert_eq!((end_va, entry), (0x4010, 0x4000));
    assert_eq!(space.translated_byte_buffers(0x4000, 4).unwrap().into_slices(), vec![vec![3u8, 4, 5, 0]]);
    let none = ElfHeaders { entry: 0, segments: None };
    assert!(matches!(Space::new_user_from_elf_headers(3, &none, &data, 0x80100, &mut frames), Err(KernelError::InvalidHeadlessTask)));
    let _ = trampoline_virtual_page_number();
}

#[test]
fn failed_load_gives_frames_back() {
    let mut frames = frames(128);
    let overlapping = image(0, &[text(b"a"), Segment { p_type: PT_LOAD, p_flags: 4, vaddr: 0x11000, memsz: 0x10, bytes: vec![] }], true);
    assert!(matches!(Space::new_user_from_elf(1, &overlapping, 0x80100, &mut frames), Some(Err(KernelError::AreaAllocFailed(0x11, 0x12)))));
    assert_eq!(frames.alloc_ppn(), Ok(0xa0000));
}
