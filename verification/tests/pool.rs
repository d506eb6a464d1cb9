use tjpgdec_rs::MemoryPool;

#[test]
fn test_alloc_basic() {
    let mut buffer = [0u8; 1024];
    let mut pool = MemoryPool::new(&mut buffer);

    let slice1 = pool.alloc_bytes(100).unwrap();
    assert_eq!(slice1.len(), 100);
    assert_eq!(pool.used(), 104);

    let slice2 = pool.alloc_bytes(50).unwrap();
    assert_eq!(slice2.len(), 50);
    assert_eq!(pool.used(), 160);
}

#[test]
fn test_alloc_alignment() {
    let mut buffer = [0u8; 1024];
    let mut pool = MemoryPool::new(&mut buffer);

    pool.alloc_bytes(1).unwrap();
    assert_eq!(pool.used(), 8);

    pool.alloc_bytes(5).unwrap();
    assert_eq!(pool.used(), 16);
}

#[test]
fn test_alloc_typed() {
    let mut buffer = [0u8; 1024];
    let mut pool = MemoryPool::new(&mut buffer);

    let u16_slice = pool.alloc_u16(10).unwrap();
    assert_eq!(u16_slice.len(), 10);
    assert_eq!(pool.used(), 24);

    let i32_slice = pool.alloc_i32(5).unwrap();
    assert_eq!(i32_slice.len(), 5);
    assert_eq!(pool.used(), 48);
}

#[test]
fn test_alloc_fail() {
    let mut buffer = [0u8; 128];
    let mut pool = MemoryPool::new(&mut buffer);

    assert!(pool.alloc_bytes(50).is_some());
    assert!(pool.alloc_bytes(50).is_some());
    assert!(pool.alloc_bytes(20).is_none());
}

#[test]
fn test_alloc_none_iff_too_small() {
    let mut buffer = [0u8; 64];
    let mut pool = MemoryPool::new(&mut buffer);
    assert_eq!(pool.capacity(), 64);
    assert_eq!(pool.remaining(), 64);
    // 57 rounds up to 64 and fits exactly
    let region = pool.alloc_bytes(57).unwrap();
    assert_eq!(region.start, 0);
    assert_eq!(region.count, 57);
    assert_eq!(pool.used(), 64);
    assert_eq!(pool.remaining(), 0);
    // an empty region always fits
    assert!(pool.alloc_bytes(0).is_some());
    assert!(pool.alloc_bytes(1).is_none());
    assert_eq!(pool.used(), 64);

    let mut buffer = [0u8; 20];
    let mut pool = MemoryPool::new(&mut buffer);
    assert!(pool.alloc_bytes(16).is_some());
    // four bytes remain, but five round up to eight
    assert_eq!(pool.remaining(), 4);
    assert!(pool.alloc_bytes(5).is_none());
    assert!(pool.alloc_bytes(4).is_none());
    assert!(pool.alloc_bytes(usize::MAX).is_none());
    assert!(pool.alloc_u16(usize::MAX).is_none());
    assert!(pool.alloc_i32(usize::MAX / 2).is_none());
    assert_eq!(pool.used(), 16);
}

#[test]
fn test_used_never_shrinks() {
    let mut buffer = [0u8; 256];
    let mut pool = MemoryPool::new(&mut buffer);
    let mut last = pool.used();
    for size in [3usize, 0, 17, 300, 8, 64, 200, 1] {
        let _ = pool.alloc_bytes(size);
        assert!(pool.used() >= last);
        assert!(pool.used() <= pool.capacity());
        assert_eq!(pool.remaining(), pool.capacity() - pool.used());
        last = pool.used();
    }
    assert_eq!(last, 8 + 24 + 8 + 64 + 8);
}

#[test]
fn test_alloc_zeroed_and_reset() {
    let mut buffer = [0xAAu8; 64];
    let mut pool = MemoryPool::new(&mut buffer);
    let plain = pool.alloc_bytes(4).unwrap();
    assert_eq!(pool.get_u8(&plain, 0), 0xAA);
    let zeroed = pool.alloc_zeroed(5).unwrap();
    assert_eq!(zeroed.start, 8);
    for i in 0..5 {
        assert_eq!(pool.get_u8(&zeroed, i), 0);
    }
    let bytes = pool.alloc_u8(3).unwrap();
    assert_eq!(bytes.len(), 3);
    assert_eq!(pool.get_u8(&bytes, 2), 0);
    pool.set_u8(&zeroed, 1, 7);
    assert_eq!(pool.get_u8(&zeroed, 1), 7);
    assert_eq!(pool.get_u8(&zeroed, 0), 0);
    assert_eq!(pool.used(), 24);

    pool.reset();
    assert_eq!(pool.used(), 0);
    assert_eq!(pool.remaining(), 64);
    assert_eq!(pool.capacity(), 64);
    // the next region lies over the old ones
    let again = pool.alloc_bytes(16).unwrap();
    assert_eq!(again.start, 0);
    assert_eq!(pool.get_u8(&again, 9), 7);
}

#[test]
fn test_typed_regions() {
    let mut buffer = [0xFFu8; 128];
    let mut pool = MemoryPool::new(&mut buffer);
    let words = pool.alloc_u16(3).unwrap();
    let shorts = pool.alloc_i16(3).unwrap();
    let ints = pool.alloc_i32(3).unwrap();
    assert_eq!(shorts.len(), 3);
    assert_eq!((words.start, shorts.start, ints.start), (0, 8, 16));
    assert_eq!(pool.used(), 32);
    for i in 0..3 {
        assert_eq!(pool.get_u16(&words, i), 0);
        assert_eq!(pool.get_i16(&shorts, i), 0);
        assert_eq!(pool.get_i32(&ints, i), 0);
    }
    pool.set_u16(&words, 0, 0xABCD);
    pool.set_u16(&words, 2, 65535);
    pool.set_i16(&shorts, 1, -2);
    pool.set_i16(&shorts, 2, i16::MIN);
    pool.set_i16(&shorts, 0, i16::MAX);
    pool.set_i32(&ints, 0, -1);
    pool.set_i32(&ints, 1, i32::MIN);
    pool.set_i32(&ints, 2, 0x1234_5678);
    assert_eq!(pool.get_u16(&words, 0), 0xABCD);
    assert_eq!(pool.get_u16(&words, 1), 0);
    assert_eq!(pool.get_u16(&words, 2), 65535);
    assert_eq!(pool.get_i16(&shorts, 0), i16::MAX);
    assert_eq!(pool.get_i16(&shorts, 1), -2);
    assert_eq!(pool.get_i16(&shorts, 2), i16::MIN);
    assert_eq!(pool.get_i32(&ints, 0), -1);
    assert_eq!(pool.get_i32(&ints, 1), i32::MIN);
    assert_eq!(pool.get_i32(&ints, 2), 0x1234_5678);
    pool.set_i32(&ints, 1, i32::MAX);
    assert_eq!(pool.get_i32(&ints, 1), i32::MAX);
    assert_eq!(pool.get_i32(&ints, 0), -1);
}
