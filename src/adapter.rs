//! The process-wide allocator's state: the core tree over a region of
//! `MAX_SIZE` bytes that is mapped once, at a base address, and the rules
//! that turn requests with a size and an alignment into core calls.
use crate::heap::SegTreeAlloc;
use vstd::arithmetic::power2::{is_pow2, lemma2_to64, pow2};
use vstd::prelude::*;

verus! {

/// The core tree of the process-wide allocator: 64-byte units, 2^24 of them.
pub type Heap = SegTreeAlloc<64, 24>;

/// Bytes in the region of the process-wide allocator (1 GiB).
pub const MAX_SIZE: usize = 0x4000_0000;

/// Whether `n` is a power of two.
pub fn is_power_of_two(n: usize) -> (r: bool)
    ensures
        r == is_pow2(n as int),
{
    if n == 0 {
        proof {
            reveal(is_pow2);
        }
        return false;
    }
    let mut m: usize = n;
    while m > 1 && m % 2 == 0
        invariant
            m >= 1,
            is_pow2(m as int) == is_pow2(n as int),
        decreases m,
    {
        proof {
            reveal(is_pow2);
        }
        m = m / 2;
    }
    proof {
        reveal(is_pow2);
    }
    m == 1
}

/// The size that a request of `size` bytes aligned to `align` is served
/// with: the larger of the two, since blocks are aligned to their size.
pub open spec fn request_size(size: int, align: int) -> int {
    if size >= align {
        size
    } else {
        align
    }
}

/// State of the process-wide allocator.
pub struct SegTreeAllocator {
    start: usize,
    heap: Heap,
}

impl SegTreeAllocator {
    /// Base address of the region; 0 while it is not mapped.
    pub closed spec fn base(self) -> int {
        self.start as int
    }

    /// The core tree.
    pub closed spec fn tree_state(self) -> Heap {
        self.heap
    }

    /// The tree is well formed and the region, once placed, fits the
    /// address space.
    pub open spec fn wf(self) -> bool {
        &&& self.tree_state().wf()
        &&& self.base() + MAX_SIZE <= usize::MAX
    }

    /// The fixed parameters admit a tree of 1 GiB.
    proof fn lemma_params()
        ensures
            Heap::params_ok(),
            Heap::max_size() == MAX_SIZE,
    {
        lemma2_to64();
        reveal_with_fuel(is_pow2, 8);
        assert(is_pow2(64));
        assert(pow2(25) == 0x200_0000);
        vstd::arithmetic::power2::lemma_pow2_unfold(25);
    }

    /// An allocator whose region is not mapped yet, with a fresh tree.
    pub fn new() -> (r: Self)
        ensures
            r.wf(),
            r.base() == 0,
            r.tree_state().live() == Set::<int>::empty(),
            forall|i: int| 0 <= i < r.tree_state()@.len() ==> r.tree_state()@[i] == 0,
    {
        proof {
            Self::lemma_params();
        }
        SegTreeAllocator { start: 0, heap: Heap::new() }
    }

    /// An allocator whose region is not mapped yet, with its tree kept in
    /// `tree`, which must hold `2^25` zero bytes.
    pub fn with_tree(tree: Vec<u8>) -> (r: Option<Self>)
        ensures
            r is Some <==> tree@.len() == Heap::tree_len() && forall|i: int|
                0 <= i < tree@.len() ==> tree@[i] == 0,
            r matches Some(a) ==> a.wf() && a.base() == 0 && a.tree_state().live() == Set::<
                int,
            >::empty(),
    {
        proof {
            Self::lemma_params();
        }
        match Heap::from_zeroed(tree) {
            Some(heap) => Some(SegTreeAllocator { start: 0, heap }),
            None => None,
        }
    }

    /// Whether the region has been given its base address.
    pub fn is_mapped(&self) -> (r: bool)
        ensures
            r == (self.base() != 0),
    {
        self.start != 0
    }

    /// Places the region at `start`. Fails, changing nothing, when it is
    /// placed already, when `start` is 0, or when the region would pass the
    /// end of the address space.
    pub fn map_at(&mut self, start: usize) -> (r: Result<(), ()>)
        requires
            old(self).wf(),
        ensures
            final(self).wf(),
            final(self).tree_state() == old(self).tree_state(),
            r is Ok <==> old(self).base() == 0 && start != 0 && start + MAX_SIZE <= usize::MAX,
            final(self).base() == if r is Ok {
                start as int
            } else {
                old(self).base()
            },
    {
        if self.start != 0 || start == 0 || start > usize::MAX - MAX_SIZE {
            return Err(());
        }
        self.start = start;
        Ok(())
    }

    /// Serves a request of `size` bytes aligned to `align` and returns the
    /// block's address. Fails, changing nothing, while the region is not
    /// mapped, when `align` is not a power of two, or when the core refuses
    /// `max(size, align)`.
    pub fn allocate(&mut self, size: usize, align: usize) -> (r: Option<usize>)
        requires
            old(self).wf(),
        ensures
            final(self).wf(),
            final(self).base() == old(self).base(),
            ({
                let node = Heap::alloc_node(old(self).tree_state().live(), request_size(size as int, align as int));
                if old(self).base() != 0 && is_pow2(align as int) && node is Some {
                    &&& r == Some((old(self).base() + Heap::node_start(node->0)) as usize)
                    &&& final(self).tree_state().live() == old(self).tree_state().live().insert(node->0)
                } else {
                    &&& r is None
                    &&& final(self).tree_state()@ == old(self).tree_state()@
                }
            }),
    {
        if self.start == 0 || !is_power_of_two(align) {
            return None;
        }
        let want = if size >= align {
            size
        } else {
            align
        };
        match self.heap.allocate(want) {
            Ok(off) => {
                proof {
                    Self::lemma_params();
                    let j = Heap::alloc_node(old(self).tree_state().live(), want as int)->0;
                    crate::laws::lemma_live_block_in_range(self.heap, j);
                }
                Some(self.start + off)
            },
            Err(()) => None,
        }
    }

    /// Gives back the block at `addr` that a request of `size` bytes aligned
    /// to `align` took. Fails, changing nothing, unless such a block is live.
    pub fn dealloc(&mut self, addr: usize, size: usize, align: usize) -> (r: Result<(), ()>)
        requires
            old(self).wf(),
        ensures
            final(self).wf(),
            final(self).base() == old(self).base(),
            ({
                let node = Heap::dealloc_node(
                    old(self).tree_state().live(),
                    addr - old(self).base(),
                    request_size(size as int, align as int),
                );
                if old(self).base() != 0 && addr >= old(self).base() && node is Some {
                    &&& r is Ok
                    &&& final(self).tree_state().live() == old(self).tree_state().live().remove(node->0)
                } else {
                    &&& r is Err
                    &&& final(self).tree_state()@ == old(self).tree_state()@
                }
            }),
    {
        if self.start == 0 || addr < self.start {
            return Err(());
        }
        let want = if size >= align {
            size
        } else {
            align
        };
        self.heap.dealloc(addr - self.start, want)
    }

    /// Size in bytes of the live block at `addr`, if there is one.
    pub fn alloc_size_of(&self, addr: usize) -> (r: Option<usize>)
        requires
            self.wf(),
        ensures
            r is Some <==> self.base() != 0 && addr >= self.base() && exists|j: int| #[trigger]
                self.tree_state().live().contains(j) && Heap::node_start(j) == addr - self.base(),
            r matches Some(n) ==> exists|j: int|
                self.tree_state().live().contains(j) && Heap::node_start(j) == addr - self.base()
                    && Heap::node_size(j) == n,
            r matches Some(n) ==> forall|j: int| #[trigger]
                self.tree_state().live().contains(j) && Heap::node_start(j) == addr - self.base()
                    ==> Heap::node_size(j) == n,
    {
        if self.start == 0 || addr < self.start {
            return None;
        }
        let off = addr - self.start;
        let r = self.heap.alloc_size_of(off);
        proof {
            assert(self.tree_state() == self.heap);
            assert(self.base() == self.start);
            if r is None {
                assert forall|j: int| #[trigger] self.heap.live().contains(j) implies Heap::node_start(j)
                    != off by {}
                assert(!exists|j: int| #[trigger] self.heap.live().contains(j) && Heap::node_start(j) == off);
            } else {
                let j = choose|j: int| self.heap.live().contains(j) && Heap::node_start(j) == off;
                assert(self.heap.live().contains(j) && Heap::node_start(j) == off);
            }
        }
        r
    }

    /// Gives back the live block at `addr`, whatever its size. Fails,
    /// changing nothing, unless a live block starts there.
    pub fn dealloc_auto_size(&mut self, addr: usize) -> (r: Result<(), ()>)
        requires
            old(self).wf(),
        ensures
            final(self).wf(),
            final(self).base() == old(self).base(),
            r is Ok <==> old(self).base() != 0 && addr >= old(self).base() && exists|j: int| #[trigger]
                old(self).tree_state().live().contains(j) && Heap::node_start(j) == addr - old(
                    self,
                ).base(),
            r is Ok ==> exists|j: int|
                old(self).tree_state().live().contains(j) && Heap::node_start(j) == addr - old(
                    self,
                ).base() && final(self).tree_state().live() == old(self).tree_state().live().remove(j),
            r is Ok ==> forall|j: int| #[trigger]
                old(self).tree_state().live().contains(j) && Heap::node_start(j) == addr - old(
                    self,
                ).base() ==> final(self).tree_state().live() == old(self).tree_state().live().remove(j),
            r is Err ==> final(self).tree_state()@ == old(self).tree_state()@,
    {
        if self.start == 0 || addr < self.start {
            return Err(());
        }
        let off = addr - self.start;
        let r = self.heap.dealloc_auto_size(off);
        proof {
            assert(old(self).tree_state() == old(self).heap);
            assert(old(self).base() == old(self).start);
            if r is Ok {
                let j = choose|j: int| old(self).heap.live().contains(j) && Heap::node_start(j) == off;
                assert(old(self).heap.live().contains(j) && Heap::node_start(j) == off);
            }
        }
        r
    }
}

} // verus!
