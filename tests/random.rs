use std::collections::BTreeMap;

use rand::rngs::StdRng;
use rand::{Rng, SeedableRng};
use segtree_alloc::SegTreeAlloc;

#[test]
fn random() {
    const SEED: u64 = 0x6868_4242_DEAD_BEEF;
    const ROUND: usize = 1_000_000;
    const MAX_SIZE: usize = 4 << 10;

    type Heap = SegTreeAlloc<4, 10>;

    let mut rng = StdRng::seed_from_u64(SEED);
    let mut heap = Heap::new();
    let mut alloc_map = BTreeMap::new();
    let mut alloc_idx = Vec::new();
    let mut total_allocated = 0usize;

    let mut success_cnt = vec![(0u32, 0u32); MAX_SIZE + 1];

    for _ in 0..ROUND {
        let rest = MAX_SIZE - total_allocated;
        if rest != 0 && (alloc_map.is_empty() || rng.gen()) {
            let size = rng.gen_range(1..=rest.min(MAX_SIZE / 2));

            success_cnt[rest].0 += 1;
            if let Ok(off) = heap.allocate(size) {
                success_cnt[rest].1 += 1;
                total_allocated += size;

                if let Some((&before_off, &(before_size, _))) =
                    alloc_map.range(..=off).next_back()
                {
                    assert!(before_off + before_size <= off);
                }
                if let Some((&after_off, _)) = alloc_map.range(off..).next() {
                    assert!(off + size <= after_off);
                }
                let idx = alloc_idx.len();
                assert_eq!(alloc_map.insert(off, (size, idx)), None);
                alloc_idx.push(off);
            }
        } else {
            let idx = rng.gen_range(0..alloc_idx.len());
            let off = alloc_idx[idx];
            let (size, _) = alloc_map.remove(&off).unwrap();
            heap.dealloc(off, size).unwrap();

            total_allocated -= size;

            if idx + 1 != alloc_idx.len() {
                let last_off = *alloc_idx.last().unwrap();
                alloc_map.get_mut(&last_off).unwrap().1 = idx;
            }
            alloc_idx.swap_remove(idx);
        }
    }

    for (size, &(total, success)) in success_cnt
        .iter()
        .enumerate()
        .step_by((success_cnt.len() / 20).max(1))
    {
        if total != 0 {
            println!(
                "free={:.3} success={:.4}",
                size as f32 / MAX_SIZE as f32,
                success as f32 / total as f32
            );
        }
    }
}
