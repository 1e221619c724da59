use jar::arena::dropless::Dropless;
use jar::arena::Manual;

const U8_VALUE: u8 = 127;
const PAGE: usize = 4096;

#[test]
fn create_manual() {
    let manual: Manual<u8> = Default::default();
    assert!(manual.start() == 0);
    assert!(manual.endaa == 0);
    assert!(manual.chunks.len() == 0);
}

#[test]
fn grow_then_shrink_page_wise() {
    let mut manual: Manual<u8> = Default::default();

    manual.grow(1);
    assert_eq!(manual.chunks.first().unwrap().storage.len(), PAGE);
    assert!(manual.start() != 0);
    assert!(manual.endaa != 0);

    manual.shrink(PAGE);
    assert!(manual.start() == 0);
    assert!(manual.endaa == 0);
}

#[test]
fn alloc_then_dealloc() {
    let mut manual: Manual<u8> = Default::default();

    let ptr1 = manual.allocate(1);
    assert_eq!(manual.chunks.first().unwrap().entries, 1);

    let _ptr2 = manual.allocate(1);
    assert_eq!(manual.free.len(), 0);
    assert_eq!(manual.chunks.first().unwrap().entries, 2);

    manual.deallocate(ptr1, 1);
    assert_eq!(manual.free.len(), 1);
    assert_eq!(manual.chunks.first().unwrap().entries, 1);
}

#[test]
fn alloc_slice() {
    let mut manual: Manual<u8> = Default::default();

    let slice = [U8_VALUE; PAGE];
    let addr = manual.alloc_slice(&slice);

    assert_eq!(manual.chunks.len(), 1);
    for i in 0..PAGE {
        assert_eq!(manual.try_read(addr + i), Some(U8_VALUE));
    }
}

#[test]
fn alloc_slice_then_dealloc_some_then_alloc_more() {
    let mut manual: Manual<u8> = Default::default();

    let slice = [U8_VALUE; PAGE];
    let saved_addr = manual.alloc_slice(&slice);

    // test the copy
    for i in 0..PAGE {
        assert_eq!(manual.try_read(saved_addr + i), Some(U8_VALUE));
    }

    // "remove" half of the slice; the live-entry count drops by exactly
    // the freed size
    manual.deallocate(saved_addr, PAGE / 2);
    assert_eq!(
        manual.chunks.first().unwrap().entries,
        PAGE / 2,
        "chunk.entries updated"
    );

    // this should still pass, even though it was deallocated
    for i in 0..PAGE {
        assert_eq!(manual.try_read(saved_addr + i), Some(U8_VALUE));
    }

    let slice2 = [U8_VALUE - 64; PAGE / 3];
    let saved_slice2 = manual.alloc_slice(&slice2);

    for i in 0..PAGE / 3 {
        assert_eq!(manual.try_read(saved_slice2 + i), Some(U8_VALUE - 64));
    }
    for i in PAGE / 2..PAGE {
        assert_eq!(manual.try_read(saved_addr + i), Some(U8_VALUE));
    }

    // Half of the bytes were removed
    // A third of the bytes have been changed
    for i in 0..PAGE / 3 {
        assert_eq!(manual.try_read(saved_addr + i), Some(U8_VALUE - 64));
    }

    assert_eq!(manual.free.first().unwrap().size, 683);

    let slice3 = [U8_VALUE + 64; PAGE / 6 + 1];
    let saved_slice3 = manual.alloc_slice(&slice3);

    for i in 0..PAGE / 6 + 1 {
        assert_eq!(manual.try_read(saved_slice3 + i), Some(U8_VALUE + 64));
    }
    assert!(manual.free.first().is_none());
}

#[test]
fn exact_fit_reuse_returns_same_address() {
    let mut manual: Manual<u8> = Default::default();
    let a = manual.allocate(7);
    let _b = manual.allocate(7);
    manual.deallocate(a, 7);
    let c = manual.allocate(7);
    assert_eq!(c, a);
}

#[test]
fn entries_stay_within_capacity() {
    let mut manual: Manual<u8> = Default::default();
    let a = manual.allocate(100);
    let _b = manual.allocate(200);
    manual.deallocate(a, 100);
    let _c = manual.allocate(50);
    for chunk in &manual.chunks {
        assert!(chunk.entries <= chunk.storage.len());
    }
}

#[test]
fn bump_regions_never_overlap_and_stay_valid() {
    let mut arena = Dropless::new();
    let first = [11u8, 22, 33];
    let second = [44u8, 55, 66, 77];
    let a = arena.alloc_slice(&first);
    let b = arena.alloc_slice(&second);

    // no overlap
    assert!(a + first.len() <= b || b + second.len() <= a);

    // both regions still hold their bytes after further allocations
    let third = [0u8; 5000];
    let _c = arena.alloc_slice(&third);
    for (i, v) in first.iter().enumerate() {
        assert_eq!(arena.read_byte(a + i), Some(*v));
    }
    for (i, v) in second.iter().enumerate() {
        assert_eq!(arena.read_byte(b + i), Some(*v));
    }
}

#[test]
fn split_reuse_consumes_the_prefix() {
    let mut manual: Manual<u8> = Default::default();
    let a = manual.allocate(100);
    let _b = manual.allocate(10);
    manual.deallocate(a, 100);
    // no exact match for 60, so the free range gives up its prefix
    let c = manual.allocate(60);
    assert_eq!(c, a);
    assert_eq!(manual.free.first().unwrap().start, a + 60);
    assert_eq!(manual.free.first().unwrap().size, 40);
}

#[test]
fn prefix_free_keeps_the_tail_alive() {
    let mut manual: Manual<u8> = Default::default();
    let a = manual.allocate(10);
    manual.deallocate(a, 4);
    // the freed prefix is reusable, the tail still reads
    assert_eq!(manual.free.first().unwrap().start, a);
    assert_eq!(manual.free.first().unwrap().size, 4);
    let b = manual.allocate(4);
    assert_eq!(b, a);
}
