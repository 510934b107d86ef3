use segtree_alloc::SegTreeAlloc;

#[test]
fn simple() {
    let mut heap = <SegTreeAlloc<1, 3>>::new();

    assert_eq!(heap.allocate(1).unwrap(), 0);
    assert_eq!(heap.allocate(2).unwrap(), 2);
    assert_eq!(heap.allocate(1).unwrap(), 1);
    assert_eq!(heap.allocate(1).unwrap(), 4);
    heap.allocate(4).unwrap_err();

    heap.dealloc(4, 1).unwrap();
    assert_eq!(heap.allocate(4).unwrap(), 4);
    heap.allocate(1).unwrap_err();

    heap.dealloc(2, 2).unwrap();
    assert_eq!(heap.allocate(1).unwrap(), 2);
    assert_eq!(heap.allocate(1).unwrap(), 3);
}

#[test]
fn unit() {
    let mut heap = <SegTreeAlloc<8, 3>>::new();
    assert_eq!(heap.allocate(1).unwrap(), 0);
    assert_eq!(heap.allocate(7).unwrap(), 8);
    assert_eq!(heap.allocate(8).unwrap(), 16);
    assert_eq!(heap.allocate(9).unwrap(), 32);
    assert_eq!(heap.allocate(1).unwrap(), 24);
    heap.dealloc(0, 1).unwrap();
    heap.dealloc(8, 7).unwrap();
    assert_eq!(heap.allocate(16).unwrap(), 0);
}

#[test]
fn cross() {
    let mut heap = <SegTreeAlloc<1, 3>>::new();
    assert_eq!(heap.allocate(2).unwrap(), 0);
    assert_eq!(heap.allocate(2).unwrap(), 2);
    assert_eq!(heap.allocate(2).unwrap(), 4);
    heap.dealloc(0, 2).unwrap();

    heap.allocate(4).unwrap_err();
    assert_eq!(heap.allocate(2).unwrap(), 0);
}

#[test]
fn overflow_request_fails_without_change() {
    let mut heap = <SegTreeAlloc<1, 3>>::new();
    heap.allocate(1).unwrap();
    let before = heap.tree_bytes().to_vec();
    heap.allocate(usize::MAX).unwrap_err();
    assert_eq!(heap.tree_bytes(), &before[..]);

    let mut big = <SegTreeAlloc<64, 24>>::new();
    big.allocate(usize::MAX).unwrap_err();
    big.allocate(usize::MAX / 2 + 2).unwrap_err();
    assert!(big.tree_bytes().iter().all(|&b| b == 0));
}

#[test]
fn zero_request_takes_one_unit() {
    let mut heap = <SegTreeAlloc<8, 3>>::new();
    assert_eq!(heap.allocate(0).unwrap(), 0);
    assert_eq!(heap.allocate(0).unwrap(), 8);
    assert_eq!(heap.alloc_size_of(0), Some(8));
    heap.dealloc(0, 0).unwrap();
    heap.dealloc(8, 0).unwrap();
    assert!(heap.tree_bytes().iter().all(|&b| b == 0));
}

#[test]
fn request_levels() {
    type Small = SegTreeAlloc<1, 3>;
    assert_eq!(Small::lvl_for_size(0), Ok(3));
    assert_eq!(Small::lvl_for_size(1), Ok(3));
    assert_eq!(Small::lvl_for_size(2), Ok(2));
    assert_eq!(Small::lvl_for_size(3), Ok(1));
    assert_eq!(Small::lvl_for_size(4), Ok(1));
    assert_eq!(Small::lvl_for_size(5), Err(()));
    assert_eq!(Small::lvl_for_size(8), Err(()));
    assert_eq!(Small::lvl_for_size(usize::MAX), Err(()));

    type Wide = SegTreeAlloc<64, 24>;
    assert_eq!(Wide::lvl_for_size(1), Ok(24));
    assert_eq!(Wide::lvl_for_size(64), Ok(24));
    assert_eq!(Wide::lvl_for_size(65), Ok(23));
    assert_eq!(Wide::lvl_for_size(1 << 29), Ok(1));
    assert_eq!(Wide::lvl_for_size((1 << 29) + 1), Err(()));
}

#[test]
fn half_region_is_the_largest_request() {
    let mut heap = <SegTreeAlloc<1, 3>>::new();
    heap.allocate(8).unwrap_err();
    assert_eq!(heap.allocate(4).unwrap(), 0);
    assert_eq!(heap.allocate(4).unwrap(), 4);
    heap.allocate(1).unwrap_err();
    assert_eq!(heap.tree_bytes()[1], 0x81);
}

#[test]
fn slot_values_follow_push_up() {
    let mut heap = <SegTreeAlloc<1, 2>>::new();
    assert_eq!(heap.tree_bytes(), &[0, 0, 0, 0, 0, 0, 0, 0][..]);
    assert_eq!(heap.allocate(1).unwrap(), 0);
    assert_eq!(heap.tree_bytes(), &[0, 1, 1, 0, 0x80, 0, 0, 0][..]);
    assert_eq!(heap.allocate(2).unwrap(), 2);
    assert_eq!(heap.tree_bytes(), &[0, 2, 1, 0x80, 0x80, 0, 0, 0][..]);
    assert_eq!(heap.allocate(1).unwrap(), 1);
    assert_eq!(heap.tree_bytes(), &[0, 0x81, 0x81, 0x80, 0x80, 0x80, 0, 0][..]);
}
