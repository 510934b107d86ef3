use segtree_alloc::adapter::{is_power_of_two, MAX_SIZE};
use segtree_alloc::SegTreeAllocator;

#[test]
fn region_must_be_placed_first() {
    let mut a = SegTreeAllocator::new();
    assert!(!a.is_mapped());
    assert_eq!(a.allocate(16, 16), None);
    assert_eq!(a.map_at(0), Err(()));
    assert_eq!(a.map_at(usize::MAX - MAX_SIZE + 1), Err(()));
    assert_eq!(a.map_at(0x10_0000), Ok(()));
    assert!(a.is_mapped());
    assert_eq!(a.map_at(0x20_0000), Err(()));
}

#[test]
fn addresses_follow_the_base() {
    let base = 0x7000_0000usize;
    let mut a = SegTreeAllocator::new();
    a.map_at(base).unwrap();
    assert_eq!(a.allocate(100, 16), Some(base));
    assert_eq!(a.allocate(1, 16), Some(base + 128));
    // the alignment raises the block size
    assert_eq!(a.allocate(1, 256), Some(base + 256));
    assert_eq!(a.allocate(8, 3), None);
    assert_eq!(a.alloc_size_of(base), Some(128));
    assert_eq!(a.alloc_size_of(base + 256), Some(256));
    assert_eq!(a.alloc_size_of(base + 64), None);
    assert_eq!(a.alloc_size_of(base - 64), None);
    assert_eq!(a.dealloc(base + 256, 1, 16), Err(()));
    assert_eq!(a.dealloc(base + 256, 1, 256), Ok(()));
    assert_eq!(a.dealloc_auto_size(base + 128), Ok(()));
    assert_eq!(a.dealloc_auto_size(base + 128), Err(()));
    assert_eq!(a.dealloc_auto_size(base), Ok(()));
    assert_eq!(a.allocate(MAX_SIZE / 2, 16), Some(base));
    assert_eq!(a.allocate(MAX_SIZE / 2 + 1, 16), None);
}

#[test]
fn storage_for_the_tree() {
    assert!(SegTreeAllocator::with_tree(vec![0u8; 16]).is_none());
    let mut a = SegTreeAllocator::with_tree(vec![0u8; 1 << 25]).unwrap();
    a.map_at(4096).unwrap();
    assert_eq!(a.allocate(64, 64), Some(4096));
}

#[test]
fn powers_of_two() {
    assert!(!is_power_of_two(0));
    assert!(is_power_of_two(1));
    assert!(is_power_of_two(2));
    assert!(!is_power_of_two(3));
    assert!(is_power_of_two(4096));
    assert!(!is_power_of_two(4097));
    assert!(is_power_of_two(1 << 63));
    assert!(!is_power_of_two(usize::MAX));
}
