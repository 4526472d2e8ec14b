use frontier::bitmap::BitMap;
use frontier::buffer::{ByteBuffers, RingBuffer, RingBufferStatus};
use frontier::error::KernelError;

#[test]
fn test_bitmap_offset() {
    assert_eq!(BitMap::offset(0), 0);
    assert_eq!(BitMap::offset(1), 0);
    assert_eq!(BitMap::offset(7), 0);
    assert_eq!(BitMap::offset(8), 1);
    assert_eq!(BitMap::offset(9), 1);
    assert_eq!(BitMap::offset(15), 1);
    assert_eq!(BitMap::offset(16), 2);
}

#[test]
fn test_bitmap_limit() {
    assert_eq!(BitMap::limit(0), 0);
    assert_eq!(BitMap::limit(1), 1);
    assert_eq!(BitMap::limit(7), 7);
    assert_eq!(BitMap::limit(8), 0);
    assert_eq!(BitMap::limit(9), 1);
    assert_eq!(BitMap::limit(15), 7);
    assert_eq!(BitMap::limit(16), 0);
}

#[test]
fn test_bitmap_block_size() {
    assert_eq!(BitMap::new(0).block_size(), 0);
    assert_eq!(BitMap::new(1).block_size(), 1);
    assert_eq!(BitMap::new(7).block_size(), 1);
    assert_eq!(BitMap::new(8).block_size(), 1);
    assert_eq!(BitMap::new(9).block_size(), 2);
}

#[test]
fn test_bitmap_get_and_set_bit() {
    let mut map = BitMap::new(0);
    assert!(map.get_bit(0).is_err());
    assert!(map.get_bit(1).is_err());
    assert!(map.get_bit(8).is_err());
    assert!(map.set_bit(0, false).is_err());
    assert!(map.set_bit(1, false).is_err());
    assert!(map.set_bit(8, false).is_err());

    let map = BitMap::new(8);
    assert!(map.get_bit(8).is_err());
    assert!(map.get_bit(9).is_err());
    assert!(map.get_bit(10).is_err());
    assert_eq!(map.get_bit(0).unwrap(), false);
    assert_eq!(map.get_bit(1).unwrap(), false);
    assert_eq!(map.get_bit(7).unwrap(), false);

    let map = BitMap::new(12);
    assert!(map.get_bit(12).is_err());
    assert!(map.get_bit(13).is_err());
    assert!(map.get_bit(16).is_err());
    assert_eq!(map.get_bit(0).unwrap(), false);
    assert_eq!(map.get_bit(8).unwrap(), false);
    assert_eq!(map.get_bit(11).unwrap(), false);

    let mut map = BitMap::new(3);
    assert!(map.get_bit(3).is_err());
    assert!(map.get_bit(7).is_err());
    assert!(map.get_bit(8).is_err());
    assert_eq!(map.get_bit(0).unwrap(), false);
    assert_eq!(map.get_bit(1).unwrap(), false);
    assert_eq!(map.get_bit(2).unwrap(), false);

    assert!(map.set_bit(3, false).is_err());
    assert!(map.set_bit(7, false).is_err());
    assert!(map.set_bit(8, false).is_err());
    assert_eq!(map.get_bit(0).unwrap(), false);
    assert_eq!(map.get_bit(1).unwrap(), false);
    assert_eq!(map.get_bit(2).unwrap(), false);

    assert_eq!(map.set_bit(0, false).unwrap(), false);
    assert_eq!(map.set_bit(1, false).unwrap(), false);
    assert_eq!(map.set_bit(2, false).unwrap(), false);
    assert_eq!(map.get_bit(0).unwrap(), false);
    assert_eq!(map.get_bit(1).unwrap(), false);
    assert_eq!(map.get_bit(2).unwrap(), false);

    assert_eq!(map.set_bit(0, true).unwrap(), true);
    assert_eq!(map.set_bit(1, true).unwrap(), true);
    assert_eq!(map.set_bit(2, true).unwrap(), true);
    assert_eq!(map.get_bit(0).unwrap(), true);
    assert_eq!(map.get_bit(1).unwrap(), true);
    assert_eq!(map.get_bit(2).unwrap(), true);

    assert_eq!(map.set_bit(0, true).unwrap(), false);
    assert_eq!(map.set_bit(1, true).unwrap(), false);
    assert_eq!(map.set_bit(2, true).unwrap(), false);
    assert_eq!(map.get_bit(0).unwrap(), true);
    assert_eq!(map.get_bit(1).unwrap(), true);
    assert_eq!(map.get_bit(2).unwrap(), true);

    assert_eq!(map.set_bit(0, false).unwrap(), true);
    assert_eq!(map.set_bit(1, false).unwrap(), true);
    assert_eq!(map.set_bit(2, false).unwrap(), true);
    assert_eq!(map.get_bit(0).unwrap(), false);
    assert_eq!(map.get_bit(1).unwrap(), false);
    assert_eq!(map.get_bit(2).unwrap(), false);

    assert_eq!(map.set_bit(0, false).unwrap(), false);
    assert_eq!(map.set_bit(1, true).unwrap(), true);
    assert_eq!(map.set_bit(2, false).unwrap(), false);
    assert_eq!(map.get_bit(0).unwrap(), false);
    assert_eq!(map.get_bit(1).unwrap(), true);
    assert_eq!(map.get_bit(2).unwrap(), false);
    assert_eq!(map.set_bit(0, true).unwrap(), true);
    assert_eq!(map.set_bit(1, false).unwrap(), true);
    assert_eq!(map.set_bit(2, false).unwrap(), false);
    assert_eq!(map.get_bit(0).unwrap(), true);
    assert_eq!(map.get_bit(1).unwrap(), false);
    assert_eq!(map.get_bit(2).unwrap(), false);
}

#[test]
fn bitmap_error_names_the_range() {
    let map = BitMap::new(3);
    assert_eq!(map.get_bit(5), Err(KernelError::IndexOutOfRange { index: 5, start: 0, end: 3 }));
}

#[test]
fn bitmap_set_then_get_gives_the_value_and_leaves_others() {
    let mut map = BitMap::new(20);
    assert_eq!(map.set_bit(13, true), Ok(true));
    assert_eq!(map.get_bit(13), Ok(true));
    assert_eq!(map.get_bit(12), Ok(false));
    assert_eq!(map.get_bit(14), Ok(false));
    assert_eq!(map.block_size(), 3);
}

#[test]
fn test_ring_buffer_read_write_byte() {
    let mut buffer = RingBuffer::new(10);
    assert_eq!(0, buffer.len());

    for batch in 1..=10u8 {
        for _ in 0..batch {
            assert!(buffer.write_byte(batch).is_ok());
        }
        if batch == 10 {
            assert!(RingBufferStatus::FULL == buffer.status());
        }
        assert_eq!(batch as usize, buffer.len());
        for _ in 0..batch {
            assert!(buffer.read_byte().is_some_and(|byte| byte == batch));
        }
        assert!(RingBufferStatus::EMPTY == buffer.status());
        assert_eq!(0, buffer.len());
        assert!(buffer.read_byte().is_none())
    }
}

#[test]
fn ring_buffer_full_refuses_and_keeps_order() {
    let mut buffer = RingBuffer::new(3);
    assert_eq!(buffer.capacity(), 3);
    assert_eq!(buffer.write_byte(7), Ok(()));
    assert_eq!(buffer.write_byte(8), Ok(()));
    assert_eq!(buffer.status(), RingBufferStatus::NORMAL(2));
    assert_eq!(buffer.write_byte(9), Ok(()));
    assert_eq!(buffer.write_byte(10), Err(KernelError::EOB));
    assert_eq!(buffer.read_byte(), Some(7));
    assert_eq!(buffer.write_byte(11), Ok(()));
    assert_eq!(buffer.read_byte(), Some(8));
    assert_eq!(buffer.read_byte(), Some(9));
    assert_eq!(buffer.read_byte(), Some(11));
    assert_eq!(buffer.read_byte(), None);
}

#[test]
fn byte_buffers_iterate_across_pieces() {
    let buffers = ByteBuffers::new(vec![vec![1u8, 2], vec![], vec![3u8]], 3);
    assert_eq!(buffers.len(), 3);
    let mut it = buffers.into_iter();
    assert_eq!(it.next(), Some(1));
    assert_eq!(it.next(), Some(2));
    assert_eq!(it.next(), Some(3));
    assert_eq!(it.next(), None);
}

#[test]
fn byte_buffers_write_through_iterator() {
    let buffers = ByteBuffers::new(vec![vec![0u8, 0], vec![0u8]], 3);
    let mut it = buffers.into_iter();
    assert_eq!(it.next_mut(5), Ok(()));
    assert_eq!(it.next_mut(6), Ok(()));
    assert_eq!(it.next_mut(7), Ok(()));
    assert_eq!(it.next_mut(8), Err(KernelError::EOB));
}

#[test]
fn byte_buffers_to_utf8() {
    let buffers = ByteBuffers::new(vec![b"he".to_vec(), b"llo".to_vec()], 5);
    assert_eq!(buffers.into_utf8_str(), Ok(String::from("hello")));
    let accent = ByteBuffers::new(vec![vec![0xc3u8], vec![0xa9u8]], 2);
    assert_eq!(accent.into_utf8_str(), Ok(String::from("é")));
    let invalid = ByteBuffers::new(vec![vec![0xffu8]], 1);
    assert_eq!(invalid.into_utf8_str(), Err(KernelError::ParseUtf8Error));
}
