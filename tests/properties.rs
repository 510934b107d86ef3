use segtree_alloc::SegTreeAlloc;

type Small = SegTreeAlloc<1, 3>;

#[test]
fn live_blocks_do_not_overlap_and_stay_aligned() {
    let mut heap = <SegTreeAlloc<4, 4>>::new();
    let sizes = [3usize, 17, 4, 1, 8, 30, 2, 5];
    let mut live: Vec<(usize, usize)> = Vec::new();
    for &s in sizes.iter() {
        if let Ok(off) = heap.allocate(s) {
            let block = heap.alloc_size_of(off).unwrap();
            assert!(block >= s);
            assert_eq!(off % 4, 0);
            assert_eq!(off % block, 0);
            assert!(off + block <= 64);
            live.push((off, block));
        }
    }
    assert!(live.len() >= 5);
    assert!(live.iter().map(|&(_, b)| b).sum::<usize>() <= 64);
    for (i, &(a, sa)) in live.iter().enumerate() {
        for &(b, sb) in live.iter().skip(i + 1) {
            assert!(a + sa <= b || b + sb <= a);
        }
    }
}

#[test]
fn same_calls_give_same_offsets() {
    let mut a = <SegTreeAlloc<2, 5>>::new();
    let mut b = <SegTreeAlloc<2, 5>>::new();
    let ops = [5usize, 1, 9, 2, 16, 3, 3, 7];
    let mut ra = Vec::new();
    let mut rb = Vec::new();
    for &s in ops.iter() {
        ra.push(a.allocate(s));
        rb.push(b.allocate(s));
    }
    a.dealloc(ra[2].unwrap(), 9).unwrap();
    b.dealloc(rb[2].unwrap(), 9).unwrap();
    ra.push(a.allocate(4));
    rb.push(b.allocate(4));
    assert_eq!(ra, rb);
    assert_eq!(a.tree_bytes(), b.tree_bytes());
}

#[test]
fn leftmost_free_block_is_taken() {
    let mut heap = Small::new();
    assert_eq!(heap.allocate(2).unwrap(), 0);
    assert_eq!(heap.allocate(2).unwrap(), 2);
    assert_eq!(heap.allocate(2).unwrap(), 4);
    assert_eq!(heap.allocate(2).unwrap(), 6);
    heap.dealloc(6, 2).unwrap();
    heap.dealloc(2, 2).unwrap();
    assert_eq!(heap.allocate(2).unwrap(), 2);
    assert_eq!(heap.allocate(2).unwrap(), 6);
}

#[test]
fn alloc_then_dealloc_restores_tree() {
    let mut heap = <SegTreeAlloc<4, 4>>::new();
    heap.allocate(5).unwrap();
    heap.allocate(12).unwrap();
    let before = heap.tree_bytes().to_vec();
    let off = heap.allocate(3).unwrap();
    assert_ne!(heap.tree_bytes(), &before[..]);
    heap.dealloc(off, 3).unwrap();
    assert_eq!(heap.tree_bytes(), &before[..]);
}

#[test]
fn empty_heap_serves_half_region_at_zero() {
    let mut heap = Small::new();
    let a = heap.allocate(1).unwrap();
    let b = heap.allocate(3).unwrap();
    let c = heap.allocate(2).unwrap();
    heap.dealloc(b, 3).unwrap();
    heap.dealloc(a, 1).unwrap();
    heap.dealloc(c, 2).unwrap();
    assert!(heap.tree_bytes().iter().all(|&x| x == 0));
    assert_eq!(heap.allocate(4).unwrap(), 0);
}

#[test]
fn root_slot_grows_on_alloc_and_shrinks_on_dealloc() {
    let mut heap = <SegTreeAlloc<1, 4>>::new();
    let mut root = heap.tree_bytes()[1];
    let mut offs = Vec::new();
    for &s in [1usize, 4, 2, 1, 8, 1].iter() {
        if let Ok(off) = heap.allocate(s) {
            offs.push((off, s));
        }
        assert!(heap.tree_bytes()[1] >= root);
        root = heap.tree_bytes()[1];
    }
    assert!(root > 0);
    for &(off, s) in offs.iter().rev() {
        heap.dealloc(off, s).unwrap();
        assert!(heap.tree_bytes()[1] <= root);
        root = heap.tree_bytes()[1];
    }
    assert_eq!(root, 0);
}

#[test]
fn bad_releases_fail_without_change() {
    let mut heap = Small::new();
    assert_eq!(heap.allocate(2).unwrap(), 0);
    let before = heap.tree_bytes().to_vec();
    // wrong size: a unit block at 0 is not live
    heap.dealloc(0, 1).unwrap_err();
    // not aligned to the block size
    heap.dealloc(1, 2).unwrap_err();
    // outside the region
    heap.dealloc(8, 1).unwrap_err();
    // nothing live there
    heap.dealloc(2, 2).unwrap_err();
    // size the core never serves
    heap.dealloc(0, 8).unwrap_err();
    assert_eq!(heap.tree_bytes(), &before[..]);
}

#[test]
fn size_lookup_and_release_without_size() {
    let mut heap = <SegTreeAlloc<8, 3>>::new();
    let a = heap.allocate(9).unwrap();
    let b = heap.allocate(3).unwrap();
    assert_eq!((a, b), (0, 16));
    assert_eq!(heap.alloc_size_of(a), Some(16));
    assert_eq!(heap.alloc_size_of(b), Some(8));
    assert_eq!(heap.alloc_size_of(8), None);
    assert_eq!(heap.alloc_size_of(24), None);
    assert_eq!(heap.alloc_size_of(3), None);
    assert_eq!(heap.alloc_size_of(64), None);
    heap.dealloc_auto_size(8).unwrap_err();
    heap.dealloc_auto_size(a).unwrap();
    assert_eq!(heap.alloc_size_of(a), None);
    heap.dealloc_auto_size(b).unwrap();
    assert!(heap.tree_bytes().iter().all(|&x| x == 0));
}

#[test]
fn storage_from_caller() {
    assert!(Small::from_zeroed(vec![0u8; 15]).is_none());
    let mut dirty = vec![0u8; 16];
    dirty[5] = 1;
    assert!(Small::from_zeroed(dirty).is_none());
    let mut heap = Small::from_zeroed(vec![0u8; 16]).unwrap();
    assert_eq!(heap.allocate(2).unwrap(), 0);
}
