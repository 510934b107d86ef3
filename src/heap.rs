//! The segment-tree allocator core: aligned power-of-two blocks handed out as
//! byte offsets inside a region of `U * 2^H` bytes.
use crate::geometry::{
    at_depth, comb, depth, enc, free_at, is_ancestor, lemma_ancestor_step, lemma_depth,
    lemma_ancestor_trans, lemma_ancestors_ordered, lemma_depth_of_node, lemma_enc_insert_outside, lemma_enc_monotone, lemma_enc_range,
    lemma_enc_up, lemma_enc_zero, lemma_not_sub_free, lemma_path_clear, lemma_sub_free_below,
    lemma_sub_free_empty, lemma_sub_free_subset, lemma_up_add, lemma_up_depth, lemma_up_range,
    lemma_up_step, path_clear, sub_free, up, USED,
};
use vstd::arithmetic::power2::{
    is_pow2, lemma2_to64, lemma_pow2_adds, lemma_pow2_pos, lemma_pow2_strictly_increases,
    lemma_pow2_unfold, pow2,
};
use vstd::prelude::*;

verus! {

/// Buddy allocator with unit `U` bytes and tree height `H`.
///
/// Slot `i` of `tree` (for `1 <= i < 2^(H+1)`) describes node `i`: `USED` on
/// the node that owns a live block, otherwise how many levels below the node
/// the nearest entirely free block lies (0: the node itself is free).
pub struct SegTreeAlloc<const U: usize, const H: u8> {
    tree: Vec<u8>,
}

/// `x * 2^e`, computed by doubling.
fn scaled(x: usize, e: u8) -> (r: usize)
    requires
        x as int * pow2(e as nat) <= usize::MAX,
    ensures
        r == x as int * pow2(e as nat),
{
    let mut r: usize = x;
    let mut k: u8 = 0;
    proof {
        lemma2_to64();
    }
    while k < e
        invariant
            k <= e,
            r == x as int * pow2(k as nat),
            x as int * pow2(e as nat) <= usize::MAX,
        decreases e - k,
    {
        proof {
            lemma_pow2_unfold(k as nat + 1);
            if k + 1 < e {
                lemma_pow2_strictly_increases(k as nat + 1, e as nat);
            }
            let p = pow2(k as nat) as int;
            let q = pow2(e as nat) as int;
            assert(x as int * (2 * p) <= x as int * q) by (nonlinear_arith)
                requires
                    2 * p <= q,
                    x >= 0,
            ;
            assert(x as int * (2 * p) == 2 * (x as int * p)) by (nonlinear_arith);
        }
        r = r * 2;
        k = k + 1;
    }
    r
}

impl<const U: usize, const H: u8> View for SegTreeAlloc<U, H> {
    type V = Seq<u8>;

    /// The slots of the tree, node 0 included.
    closed spec fn view(&self) -> Seq<u8> {
        self.tree@
    }
}

impl<const U: usize, const H: u8> SegTreeAlloc<U, H> {
    /// The parameters admit a tree: the unit is a positive power of two, and
    /// both the region of `U * 2^H` bytes and the tree of `2^(H+1)` slots fit
    /// the address space.
    pub open spec fn params_ok() -> bool {
        &&& is_pow2(U as int)
        &&& H < 63
        &&& U as int * pow2(H as nat) <= usize::MAX
        &&& pow2(H as nat + 1) <= usize::MAX
    }

    /// Size of the whole region in bytes.
    pub open spec fn max_size() -> int {
        U as int * pow2(H as nat)
    }

    /// Size in bytes of a block at level `lvl` (level 0 is the root).
    pub open spec fn level_size(lvl: nat) -> int {
        U as int * pow2((H - lvl) as nat)
    }

    /// Number of slots, node 0 included.
    pub open spec fn tree_len() -> int {
        pow2(H as nat + 1) as int
    }

    /// Height of node `j` above the leaves.
    pub open spec fn height(j: int) -> nat {
        (H - depth(j)) as nat
    }

    /// First byte of the block that node `j` covers.
    pub open spec fn node_start(j: int) -> int {
        (j - pow2(depth(j))) * Self::level_size(depth(j))
    }

    /// Length in bytes of the block that node `j` covers.
    pub open spec fn node_size(j: int) -> int {
        Self::level_size(depth(j))
    }

    /// The slot value that the live set `s` gives to node `j`.
    pub open spec fn slot(s: Set<int>, j: int) -> int {
        enc(s, j, Self::height(j))
    }

    /// The nodes that own a live block.
    pub open spec fn live(self) -> Set<int> {
        Set::new(|j: int| 1 <= j < self@.len() && self@[j] == USED)
    }

    /// No live node lies above another live node.
    pub open spec fn separated(s: Set<int>) -> bool {
        forall|y: int, r: nat|
            #![trigger s.contains(y), up(y, r)]
            s.contains(y) && r > 0 && 0 <= y ==> !s.contains(up(y, r))
    }

    /// The tree is the encoding of its live set, and live blocks do not nest.
    pub open spec fn wf(self) -> bool {
        &&& Self::params_ok()
        &&& self@.len() == Self::tree_len()
        &&& self@[0] == 0
        &&& forall|j: int|
            1 <= j < self@.len() ==> #[trigger] self@[j] as int == Self::slot(
                self.live(),
                j,
            )
        &&& Self::separated(self.live())
    }

    /// The largest level `<= l` whose blocks hold `size` bytes (0 if none).
    pub open spec fn fit_level(size: int, l: nat) -> nat
        decreases l,
    {
        if l == 0 || size <= Self::level_size(l) {
            l
        } else {
            Self::fit_level(size, (l - 1) as nat)
        }
    }

    /// Level of the block that serves a request of `size` bytes: the smallest
    /// block that holds it, provided that its rounded size stays below the
    /// whole region (a zero request counts as one byte).
    pub open spec fn request_level(size: int) -> Option<nat> {
        if 2 * (if size == 0 {
            1
        } else {
            size
        }) <= Self::max_size() {
            Some(Self::fit_level(size, H as nat))
        } else {
            None
        }
    }

    /// The leftmost free node at level `lvl` from node `k` on.
    pub open spec fn first_free_from(s: Set<int>, lvl: nat, k: int) -> Option<int>
        decreases pow2(lvl + 1) - k,
    {
        if k >= pow2(lvl + 1) {
            None
        } else if free_at(s, k, lvl, H as nat) {
            Some(k)
        } else {
            Self::first_free_from(s, lvl, k + 1)
        }
    }

    /// The leftmost free node at level `lvl`.
    pub open spec fn first_free(s: Set<int>, lvl: nat) -> Option<int> {
        Self::first_free_from(s, lvl, pow2(lvl) as int)
    }

    /// The node that `alloc(size)` takes when the live set is `s`.
    pub open spec fn alloc_node(s: Set<int>, size: int) -> Option<int> {
        match Self::request_level(size) {
            Some(lvl) => Self::first_free(s, lvl),
            None => None,
        }
    }

    /// The node that `dealloc(off, size)` releases when the live set is `s`.
    pub open spec fn dealloc_node(s: Set<int>, off: int, size: int) -> Option<int> {
        match Self::request_level(size) {
            Some(lvl) => {
                let j = pow2(lvl) + off / Self::level_size(lvl);
                if 0 <= off < Self::max_size() && off % Self::level_size(lvl) == 0 && s.contains(
                    j,
                ) {
                    Some(j)
                } else {
                    None
                }
            },
            None => None,
        }
    }

    /// A fresh allocator: the whole region is free.
    pub fn new() -> (r: Self)
        requires
            Self::params_ok(),
        ensures
            r.wf(),
            r.live() == Set::<int>::empty(),
            forall|i: int| 0 <= i < r@.len() ==> r@[i] == 0,
    {
        proof {
            lemma_pow2_unfold(H as nat + 1);
        }
        let len = scaled(2, H);
        let mut tree: Vec<u8> = Vec::new();
        while tree.len() < len
            invariant
                tree@.len() <= len,
                forall|i: int| 0 <= i < tree@.len() ==> tree@[i] == 0,
            decreases len - tree.len(),
        {
            tree.push(0);
        }
        let r = SegTreeAlloc { tree };
        proof {
            assert(r.live() =~= Set::<int>::empty());
            Self::lemma_zero_tree(r);
        }
        r
    }

    /// An all-zero tree encodes the empty live set.
    proof fn lemma_zero_tree(a: Self)
        requires
            Self::params_ok(),
            a.tree@.len() == Self::tree_len(),
            forall|i: int| 0 <= i < a.tree@.len() ==> a.tree@[i] == 0,
            a.live() == Set::<int>::empty(),
        ensures
            a.wf(),
    {
        assert forall|j: int| 1 <= j < a.tree@.len() implies #[trigger] a.tree@[j] as int
            == Self::slot(a.live(), j) by {
            Self::lemma_node(j);
            lemma_sub_free_empty(j, Self::height(j));
            lemma_enc_zero(a.live(), j, Self::height(j));
        }
        lemma_pow2_pos(H as nat + 1);
    }

    /// Builds an allocator on storage that the caller provides; the storage
    /// must hold exactly `2^(H+1)` zero bytes.
    pub fn from_zeroed(tree: Vec<u8>) -> (r: Option<Self>)
        requires
            Self::params_ok(),
        ensures
            r is Some <==> tree@.len() == Self::tree_len() && forall|i: int|
                0 <= i < tree@.len() ==> tree@[i] == 0,
            r matches Some(a) ==> a.wf() && a.live() == Set::<int>::empty() && a@ == tree@,
    {
        proof {
            lemma_pow2_unfold(H as nat + 1);
        }
        let len = scaled(2, H);
        if tree.len() != len {
            return None;
        }
        let mut i: usize = 0;
        while i < len
            invariant
                i <= len,
                len == tree@.len(),
                forall|k: int| 0 <= k < i ==> tree@[k] == 0,
            decreases len - i,
        {
            if tree[i] != 0 {
                return None;
            }
            i = i + 1;
        }
        let r = SegTreeAlloc { tree };
        proof {
            assert(r.live() =~= Set::<int>::empty());
            Self::lemma_zero_tree(r);
        }
        Some(r)
    }

    /// The level at which a request of `size` bytes is served.
    pub fn lvl_for_size(size: usize) -> (r: Result<u8, ()>)
        requires
            Self::params_ok(),
        ensures
            match Self::request_level(size as int) {
                Some(l) => l <= H && r == Ok::<u8, ()>(l as u8),
                None => r is Err,
            },
            r matches Ok(l) ==> l <= H && size <= Self::level_size(l as nat) && (l < H
                ==> Self::level_size(l as nat + 1) < size),
    {
        let max_size = scaled(U, H);
        let want: usize = if size == 0 {
            1
        } else {
            size
        };
        if want > max_size / 2 {
            return Err(());
        }
        let mut lvl: u8 = H;
        let mut block: usize = U;
        proof {
            Self::lemma_level_size(H as nat);
        }
        while block < size
            invariant
                Self::params_ok(),
                lvl <= H,
                block == Self::level_size(lvl as nat),
                2 * size <= Self::max_size(),
                Self::fit_level(size as int, H as nat) == Self::fit_level(size as int, lvl as nat),
                lvl < H ==> Self::level_size(lvl as nat + 1) < size,
            decreases lvl,
        {
            proof {
                Self::lemma_level_size(lvl as nat);
                if lvl == 0 {
                    Self::lemma_level_size(0);
                    lemma_pow2_pos(0);
                    lemma2_to64();
                }
            }
            block = block * 2;
            lvl = lvl - 1;
        }
        Ok(lvl)
    }

    /// Block sizes: positive, doubling towards the root, `U` at the leaves,
    /// the whole region at the root.
    pub(crate) proof fn lemma_level_size(lvl: nat)
        requires
            Self::params_ok(),
            lvl <= H,
        ensures
            Self::level_size(lvl) > 0,
            Self::level_size(lvl) * pow2(lvl) == Self::max_size(),
            lvl > 0 ==> Self::level_size((lvl - 1) as nat) == 2 * Self::level_size(lvl),
            lvl < H ==> Self::level_size(lvl) < Self::level_size(lvl + 1) * 2 + 1,
            Self::level_size(lvl) <= Self::max_size(),
            Self::level_size(H as nat) == U,
    {
        lemma2_to64();
        let u = U as int;
        assert((H - H as nat) as nat == 0);
        assert(pow2((H - H as nat) as nat) == 1);
        assert(u > 0) by {
            vstd::arithmetic::power2::is_pow2_equiv(u);
            let e = choose|e: nat| vstd::arithmetic::power::pow(2, e) == u;
            vstd::arithmetic::power::lemma_pow_positive(2, e);
        }
        let a = pow2((H - lvl) as nat) as int;
        let b = pow2(lvl) as int;
        lemma_pow2_adds((H - lvl) as nat, lvl);
        lemma_pow2_pos(lvl);
        lemma_pow2_pos((H - lvl) as nat);
        assert((H - lvl) as nat + lvl == H as nat);
        assert(u * a * b == u * (a * b)) by (nonlinear_arith);
        assert(u * a > 0) by (nonlinear_arith)
            requires
                u > 0,
                a > 0,
        ;
        assert(u * a <= u * a * b) by (nonlinear_arith)
            requires
                u * a > 0,
                b >= 1,
        ;
        if lvl > 0 {
            lemma_pow2_unfold((H - lvl) as nat + 1);
            assert((H - (lvl - 1) as nat) as nat == (H - lvl) as nat + 1);
            assert(u * (2 * a) == 2 * (u * a)) by (nonlinear_arith);
        }
        if lvl < H {
            lemma_pow2_unfold((H - lvl) as nat);
            assert((H - (lvl + 1) as nat) as nat + 1 == (H - lvl) as nat);
            let c = pow2((H - (lvl + 1)) as nat) as int;
            assert(u * (2 * c) == 2 * (u * c)) by (nonlinear_arith);
        }
    }

    /// A node of the tree lies at a depth of at most `H`.
    pub(crate) proof fn lemma_node(j: int)
        requires
            Self::params_ok(),
            1 <= j < Self::tree_len(),
        ensures
            at_depth(j, depth(j)),
            depth(j) <= H,
            Self::height(j) + depth(j) == H,
    {
        lemma_depth_of_node(j);
        if depth(j) > H {
            if depth(j) > H + 1 {
                lemma_pow2_strictly_increases(H as nat + 1, depth(j));
            }
        }
    }

    /// What the scan for the first free node found.
    pub(crate) proof fn lemma_first_free_found(s: Set<int>, lvl: nat, k: int)
        requires
            Self::first_free_from(s, lvl, k) is Some,
        ensures
            ({
                let j = Self::first_free_from(s, lvl, k)->0;
                &&& k <= j < pow2(lvl + 1)
                &&& free_at(s, j, lvl, H as nat)
                &&& forall|x: int| k <= x < j ==> !#[trigger] free_at(s, x, lvl, H as nat)
            }),
        decreases pow2(lvl + 1) - k,
    {
        if k < pow2(lvl + 1) && !free_at(s, k, lvl, H as nat) {
            Self::lemma_first_free_found(s, lvl, k + 1);
        }
    }

    /// The level found for a request is at most the level the search began at.
    pub(crate) proof fn lemma_fit_level_le(size: int, l: nat)
        ensures
            Self::fit_level(size, l) <= l,
        decreases l,
    {
        if l > 0 {
            Self::lemma_fit_level_le(size, (l - 1) as nat);
        }
    }

    /// The tree is a function of the live set.
    pub(crate) proof fn lemma_layout_determined(a: Self, b: Self)
        requires
            a.wf(),
            b.wf(),
            a.live() == b.live(),
        ensures
            a@ == b@,
    {
        lemma_pow2_pos(H as nat + 1);
        assert forall|j: int| 0 <= j < a@.len() implies a@[j] == b@[j] by {
            if j >= 1 {
                assert(a@[j] as int == Self::slot(a.live(), j));
                assert(b@[j] as int == Self::slot(b.live(), j));
            }
        }
        assert(a@ =~= b@);
    }

    /// Reads the live set back from slots that encode it.
    proof fn lemma_live_from_slots(a: Self, s: Set<int>)
        requires
            Self::params_ok(),
            a@.len() == Self::tree_len(),
            forall|y: int| s.contains(y) ==> 1 <= y < Self::tree_len(),
            forall|j: int| 1 <= j < a@.len() ==> #[trigger] a@[j] as int == Self::slot(s, j),
        ensures
            a.live() == s,
    {
        assert forall|j: int| a.live().contains(j) <==> s.contains(j) by {
            if 1 <= j < a@.len() {
                Self::lemma_node(j);
                lemma_enc_range(s, j, Self::height(j));
                assert(a@[j] as int == Self::slot(s, j));
            }
        }
        assert(a.live() =~= s);
    }

    /// No node at level `lvl` is free from `k` on.
    proof fn lemma_first_free_none(s: Set<int>, lvl: nat, k: int)
        requires
            forall|x: int| k <= x < pow2(lvl + 1) ==> !#[trigger] free_at(s, x, lvl, H as nat),
        ensures
            Self::first_free_from(s, lvl, k) == None::<int>,
        decreases pow2(lvl + 1) - k,
    {
        if k < pow2(lvl + 1) {
            Self::lemma_first_free_none(s, lvl, k + 1);
        }
    }

    /// `j` is the first free node at level `lvl` from `k` on.
    pub(crate) proof fn lemma_first_free_some(s: Set<int>, lvl: nat, k: int, j: int)
        requires
            k <= j < pow2(lvl + 1),
            free_at(s, j, lvl, H as nat),
            forall|x: int| k <= x < j ==> !#[trigger] free_at(s, x, lvl, H as nat),
        ensures
            Self::first_free_from(s, lvl, k) == Some(j),
        decreases j - k,
    {
        if k < j {
            Self::lemma_first_free_some(s, lvl, k + 1, j);
        }
    }

    /// A strict ancestor of a node is a node whose children are nodes.
    proof fn lemma_ancestor_in_tree(x: int, c: int)
        requires
            Self::params_ok(),
            1 <= c < Self::tree_len(),
            is_ancestor(x, c),
        ensures
            1 <= x,
            2 * x + 1 < Self::tree_len(),
            depth(2 * x) == depth(x) + 1,
            depth(2 * x + 1) == depth(x) + 1,
    {
        Self::lemma_node(c);
        lemma_up_depth(c, (depth(c) - depth(x)) as nat);
        lemma_depth_of_node(x);
        if depth(x) + 1 < H {
            lemma_pow2_strictly_increases(depth(x) + 1, H as nat);
        }
        lemma_pow2_unfold(H as nat + 1);
    }

    /// After one slot `i` of a well-formed tree is set to what `s` gives it,
    /// where `s` differs from the live set at most at `i` and nowhere above
    /// it, the slots off the path above `i` encode `s` and all stay bounded.
    proof fn lemma_before_push(a: Self, t: Seq<u8>, i: int, s: Set<int>)
        requires
            a.wf(),
            1 <= i < a@.len(),
            t == a@.update(i, t[i]),
            t[i] as int == Self::slot(s, i),
            forall|x: int|
                1 <= x < a@.len() && x != i && !is_ancestor(x, i) ==> #[trigger] Self::slot(s, x)
                    == Self::slot(a.live(), x),
        ensures
            forall|x: int|
                1 <= x < t.len() && !is_ancestor(x, i) ==> #[trigger] t[x] as int == Self::slot(s, x),
            forall|x: int|
                1 <= x < t.len() ==> #[trigger] t[x] as int <= USED as int + Self::height(x),
    {
        assert forall|x: int|
            1 <= x < t.len() implies #[trigger] t[x] as int <= USED as int + Self::height(x) by {
            Self::lemma_node(x);
            if x != i {
                assert(a@[x] as int == Self::slot(a.live(), x));
                lemma_enc_range(a.live(), x, Self::height(x));
            } else {
                lemma_enc_range(s, x, Self::height(x));
            }
        }
        assert forall|x: int|
            1 <= x < t.len() && !is_ancestor(x, i) implies #[trigger] t[x] as int == Self::slot(s, x) by {
            if x != i {
                assert(a@[x] as int == Self::slot(a.live(), x));
            }
        }
    }

    /// Recomputes the slots of the strict ancestors of `i`, bottom-up, each
    /// from its two children; every other slot is kept. Slots stay within
    /// `USED` plus the node's height, so no step overflows.
    fn push_up(&mut self, i: usize)
        requires
            Self::params_ok(),
            old(self)@.len() == Self::tree_len(),
            1 <= i < old(self)@.len(),
            forall|x: int|
                1 <= x < old(self)@.len() ==> #[trigger] old(self)@[x] as int <= USED as int
                    + Self::height(x),
        ensures
            final(self)@.len() == old(self)@.len(),
            final(self)@[0] == old(self)@[0],
            forall|x: int|
                1 <= x < final(self)@.len() && !is_ancestor(x, i as int)
                    ==> #[trigger] final(self)@[x] == old(self)@[x],
            forall|x: int|
                #![trigger final(self)@[x]]
                is_ancestor(x, i as int) ==> final(self)@[x] as int == comb(
                    final(self)@[2 * x] as int,
                    final(self)@[2 * x + 1] as int,
                ),
            forall|x: int|
                1 <= x < final(self)@.len() ==> #[trigger] final(self)@[x] as int <= USED as int
                    + Self::height(x),
    {
        let ghost i0 = i as int;
        let mut i = i;
        proof {
            lemma_pow2_unfold(H as nat + 1);
        }
        while i > 1
            invariant
                Self::params_ok(),
                self@.len() == old(self)@.len(),
                self@.len() == Self::tree_len(),
                Self::tree_len() == 2 * pow2(H as nat),
                self@[0] == old(self)@[0],
                1 <= i0 < self@.len(),
                1 <= i < self@.len(),
                i == i0 || is_ancestor(i as int, i0),
                forall|x: int|
                    1 <= x < self@.len() && !is_ancestor(x, i0) ==> #[trigger] self@[x]
                        == old(self)@[x],
                forall|x: int|
                    #![trigger self@[x]]
                    is_ancestor(x, i0) && !is_ancestor(x, i as int) ==> self@[x] as int == comb(
                        self@[2 * x] as int,
                        self@[2 * x + 1] as int,
                    ),
                forall|x: int|
                    1 <= x < self@.len() ==> #[trigger] self@[x] as int <= USED as int
                        + Self::height(x),
            decreases i,
        {
            let p = i / 2;
            let sib = if i % 2 == 0 {
                i + 1
            } else {
                i - 1
            };
            proof {
                Self::lemma_node(i as int);
                Self::lemma_node(p as int);
                assert(depth(i as int) == depth(p as int) + 1);
                assert(depth(sib as int) == depth(p as int) + 1);
                assert(Self::height(p as int) == Self::height(i as int) + 1);
                assert(self@[i as int] as int <= USED as int + Self::height(i as int));
                assert(self@[sib as int] as int <= USED as int + Self::height(sib as int));
                lemma_ancestor_step(p as int, i as int);
                if i as int != i0 {
                    lemma_ancestor_trans(p as int, i as int, i0);
                } else {
                    assert(is_ancestor(p as int, i0));
                }
            }
            let a = self.tree[i];
            let b = self.tree[sib];
            let low = if a < b {
                a
            } else {
                b
            };
            let v: u8 = if a != 0 || b != 0 {
                low + 1
            } else {
                low
            };
            proof {
                assert(v as int == comb(self@[2 * p as int] as int, self@[2 * p as int + 1] as int));
            }
            let ghost before = self@;
            self.tree.set(p, v);
            proof {
                assert forall|x: int|
                    #![trigger self@[x]]
                    is_ancestor(x, i0) && !is_ancestor(x, p as int) implies self@[x] as int == comb(
                    self@[2 * x] as int,
                    self@[2 * x + 1] as int,
                ) by {
                    lemma_ancestor_step(x, i as int);
                    Self::lemma_ancestor_in_tree(x, i0);
                    if x == p {
                        assert(self@[2 * x] == before[2 * x]);
                        assert(self@[2 * x + 1] == before[2 * x + 1]);
                    } else {
                        assert(!is_ancestor(x, i as int));
                        if depth(x) < depth(i as int) {
                            lemma_ancestors_ordered(x, i as int, i0);
                        }
                        Self::lemma_node(i0);
                        lemma_up_depth(i0, (depth(i0) - depth(x)) as nat);
                        assert(x >= 1);
                        assert(depth(2 * x) == depth(x) + 1);
                        assert(depth(2 * x + 1) == depth(x) + 1);
                        assert(2 * x != p && 2 * x + 1 != p);
                        assert(before[x] as int == comb(before[2 * x] as int, before[2 * x + 1] as int));
                    }
                }
                assert forall|x: int|
                    1 <= x < self@.len() && !is_ancestor(x, i0) implies #[trigger] self@[x]
                    == old(self)@[x] by {
                    if x == p {
                        assert(is_ancestor(p as int, i0));
                    }
                }
                assert forall|x: int|
                    1 <= x < self@.len() implies #[trigger] self@[x] as int <= USED as int
                    + Self::height(x) by {
                    if x != p {
                        assert(before[x] as int <= USED as int + Self::height(x));
                    }
                }
                if p as int != i0 {
                    assert(is_ancestor(p as int, i0));
                }
            }
            i = p;
        }
        proof {
            assert forall|x: int|
                #![trigger self@[x]]
                is_ancestor(x, i0) implies self@[x] as int == comb(
                self@[2 * x] as int,
                self@[2 * x + 1] as int,
            ) by {
                assert(!is_ancestor(x, 1));
            }
        }
    }

    /// Slots that encode `s` off the path above `i`, and that the push-up
    /// rule gives on that path, encode `s` everywhere.
    proof fn lemma_pushed_encodes(t: Seq<u8>, i: int, s: Set<int>)
        requires
            Self::params_ok(),
            t.len() == Self::tree_len(),
            1 <= i < t.len(),
            forall|x: int|
                1 <= x < t.len() && !is_ancestor(x, i) ==> #[trigger] t[x] as int == Self::slot(s, x),
            forall|x: int|
                #![trigger t[x]]
                is_ancestor(x, i) ==> t[x] as int == comb(t[2 * x] as int, t[2 * x + 1] as int),
            forall|x: int| is_ancestor(x, i) ==> !s.contains(x),
        ensures
            forall|x: int| 1 <= x < t.len() ==> #[trigger] t[x] as int == Self::slot(s, x),
    {
        assert forall|x: int| 1 <= x < t.len() implies #[trigger] t[x] as int == Self::slot(s, x) by {
            if is_ancestor(x, i) {
                Self::lemma_pushed_path(t, i, s, (depth(i) - depth(x)) as nat);
            }
        }
    }

    proof fn lemma_pushed_path(t: Seq<u8>, i: int, s: Set<int>, k: nat)
        requires
            Self::params_ok(),
            t.len() == Self::tree_len(),
            1 <= i < t.len(),
            k <= depth(i),
            forall|x: int|
                1 <= x < t.len() && !is_ancestor(x, i) ==> #[trigger] t[x] as int == Self::slot(s, x),
            forall|x: int|
                #![trigger t[x]]
                is_ancestor(x, i) ==> t[x] as int == comb(t[2 * x] as int, t[2 * x + 1] as int),
            forall|x: int| is_ancestor(x, i) ==> !s.contains(x),
        ensures
            t[up(i, k)] as int == Self::slot(s, up(i, k)),
        decreases k,
    {
        Self::lemma_node(i);
        if k == 0 {
            assert(!is_ancestor(i, i));
        } else {
            let km = (k - 1) as nat;
            Self::lemma_pushed_path(t, i, s, km);
            let c = up(i, km);
            let x = up(i, k);
            lemma_up_step(i, km);
            lemma_up_depth(i, km);
            lemma_up_depth(i, k);
            assert(is_ancestor(x, i));
            let sib = if c == 2 * x {
                2 * x + 1
            } else {
                2 * x
            };
            assert(depth(sib) == depth(x) + 1);
            assert(depth(c) == depth(x) + 1);
            assert(!is_ancestor(sib, i));
            Self::lemma_node(c);
            lemma_depth_of_node(sib);
            if depth(sib) < H {
                lemma_pow2_strictly_increases(depth(sib) + 1, H as nat + 1);
            }
            assert(t[sib] as int == Self::slot(s, sib));
            assert(Self::slot(s, x) == comb(Self::slot(s, 2 * x), Self::slot(s, 2 * x + 1)));
        }
    }

    /// Takes a block of at least `size` bytes: the leftmost free block of the
    /// smallest level that holds the request. Returns its byte offset.
    pub fn allocate(&mut self, size: usize) -> (r: Result<usize, ()>)
        requires
            old(self).wf(),
        ensures
            final(self).wf(),
            match Self::alloc_node(old(self).live(), size as int) {
                Some(j) => r == Ok::<usize, ()>(Self::node_start(j) as usize) && size
                    <= Self::node_size(j) && final(self).live() == old(self).live().insert(j),
                None => r is Err && final(self)@ == old(self)@,
            },
            final(self)@[1] >= old(self)@[1],
    {
        let ghost s = self.live();
        proof {
            lemma_pow2_unfold(H as nat + 1);
            lemma_pow2_pos(H as nat);
        }
        let lvl = match Self::lvl_for_size(size) {
            Ok(l) => l,
            Err(()) => return Err(()),
        };
        proof {
            lemma_pow2_unfold(H as nat + 1);
            lemma2_to64();
            Self::lemma_node(1);
            lemma_enc_range(s, 1, H as nat);
        }
        if self.tree[1] > lvl {
            proof {
                assert forall|k: int| pow2(lvl as nat) <= k < pow2(lvl as nat + 1) implies !#[trigger] free_at(
                    s,
                    k,
                    lvl as nat,
                    H as nat,
                ) by {
                    if free_at(s, k, lvl as nat, H as nat) {
                        lemma_enc_zero(s, k, (H - lvl) as nat);
                        if lvl > 0 {
                            lemma_path_clear(s, k, lvl as nat, 0);
                        }
                        lemma_enc_up(s, k, (H - lvl) as nat, 0, lvl as nat);
                        lemma_pow2_unfold(lvl as nat + 1);
                        lemma_up_range(k, 1, lvl as nat);
                        assert(self@[1] as int == Self::slot(s, 1));
                    }
                }
                Self::lemma_first_free_none(s, lvl as nat, pow2(lvl as nat) as int);
            }
            return Err(());
        }
        let mut i: usize = 1;
        let mut l: u8 = 0;
        proof {
            lemma_pow2_pos(lvl as nat);
            assert(pow2(lvl as nat) * pow2(0) == pow2(lvl as nat));
        }
        while l < lvl
            invariant
                self.wf(),
                s == self.live(),
                Self::tree_len() == 2 * pow2(H as nat),
                pow2(H as nat) > 0,
                self@[1] == old(self)@[1],
                lvl <= H,
                l <= lvl,
                at_depth(i as int, l as nat),
                path_clear(s, i as int, l as nat),
                enc(s, i as int, (H - l) as nat) <= lvl - l,
                forall|k: int|
                    pow2(lvl as nat) <= k < i * pow2((lvl - l) as nat) ==> !#[trigger] free_at(
                        s,
                        k,
                        lvl as nat,
                        H as nat,
                    ),
            decreases lvl - l,
        {
            proof {
                lemma_pow2_unfold(l as nat + 1);
                lemma_pow2_unfold(l as nat + 2);
                if l + 1 < H {
                    lemma_pow2_strictly_increases(l as nat + 2, H as nat + 1);
                }
            }
            let c = 2 * i;
            proof {
                lemma_depth(c as int, l as nat + 1);
                lemma_depth(c as int + 1, l as nat + 1);
                Self::lemma_node(c as int);
                lemma_enc_range(s, i as int, (H - l) as nat);
                lemma_enc_range(s, c as int, (H - l - 1) as nat);
                lemma_enc_range(s, c as int + 1, (H - l - 1) as nat);
                assert(self@[c as int] as int == Self::slot(s, c as int));
                assert(!s.contains(i as int));
                assert(enc(s, i as int, (H - l) as nat) == comb(
                    enc(s, c as int, (H - l - 1) as nat),
                    enc(s, c as int + 1, (H - l - 1) as nat),
                ));
                lemma_pow2_unfold((lvl - l) as nat);
                let q = pow2((lvl - l - 1) as nat) as int;
                assert(i * pow2((lvl - l) as nat) == c * q) by (nonlinear_arith)
                    requires
                        pow2((lvl - l) as nat) == 2 * q,
                        c == 2 * i,
                ;
                assert((c + 1) * q == c * q + q) by (nonlinear_arith);
            }
            let go_right = self.tree[c] >= lvl - l;
            let next = if go_right {
                c + 1
            } else {
                c
            };
            proof {
                let q = pow2((lvl - l - 1) as nat) as int;
                if go_right {
                    assert forall|k: int|
                        c * q <= k < (c + 1) * q implies !#[trigger] free_at(
                        s,
                        k,
                        lvl as nat,
                        H as nat,
                    ) by {
                        if free_at(s, k, lvl as nat, H as nat) {
                            lemma_enc_zero(s, k, (H - lvl) as nat);
                            let r = (lvl - l - 1) as nat;
                            if r > 0 {
                                lemma_path_clear(s, k / 2, (lvl - 1) as nat, (r - 1) as nat);
                            }
                            lemma_pow2_pos(r);
                            lemma_enc_up(s, k, (H - lvl) as nat, 0, r);
                            lemma_up_range(k, c as int, r);
                            assert((H - lvl) as nat + r == (H - l - 1) as nat);
                        }
                    }
                }
                assert(path_clear(s, next as int, l as nat + 1));
            }
            i = next;
            l = l + 1;
        }
        proof {
            lemma_enc_range(s, i as int, (H - lvl) as nat);
            lemma_enc_zero(s, i as int, (H - lvl) as nat);
            assert(free_at(s, i as int, lvl as nat, H as nat));
            assert(pow2(0) == 1);
            assert(i * pow2(0) == i);
            Self::lemma_first_free_some(s, lvl as nat, pow2(lvl as nat) as int, i as int);
            lemma_depth(i as int, lvl as nat);
            Self::lemma_level_size(lvl as nat);
            Self::lemma_level_size(0);
        }
        let block = scaled(U, H - lvl);
        let first = scaled(1, lvl);
        proof {
            lemma_pow2_unfold(lvl as nat + 1);
            let b = block as int;
            let p = first as int;
            assert((i - p) * b < p * b) by (nonlinear_arith)
                requires
                    0 <= i - p < p,
                    b > 0,
            ;
            assert(0 <= (i - p) * b) by (nonlinear_arith)
                requires
                    0 <= i - p,
                    b > 0,
            ;
            assert(p * b == b * p) by (nonlinear_arith);
        }
        let off = (i - first) * block;
        proof {
            Self::lemma_take(*old(self), i as int, lvl as nat);
        }
        self.tree.set(i, USED);
        let ghost s2 = s.insert(i as int);
        proof {
            Self::lemma_before_push(*old(self), self@, i as int, s2);
        }
        self.push_up(i);
        proof {
            Self::lemma_pushed_encodes(self@, i as int, s2);
            Self::lemma_live_from_slots(*self, s2);
            Self::lemma_node(1);
            lemma_enc_monotone(s, s2, 1, H as nat);
            assert(self@[1] as int == Self::slot(s2, 1));
            assert(old(self)@[1] as int == Self::slot(s, 1));
        }
        Ok(off)
    }

    /// What taking the free node `i` at level `lvl` needs of the slots: the
    /// other slots keep their values, no ancestor of `i` is live, and the
    /// live set stays separated.
    proof fn lemma_take(a: Self, i: int, lvl: nat)
        requires
            a.wf(),
            lvl <= H,
            at_depth(i, lvl),
            free_at(a.live(), i, lvl, H as nat),
        ensures
            forall|x: int|
                1 <= x < a@.len() && x != i && !is_ancestor(x, i) ==> #[trigger] Self::slot(
                    a.live().insert(i),
                    x,
                ) == Self::slot(a.live(), x),
            forall|x: int| is_ancestor(x, i) ==> !a.live().insert(i).contains(x),
            Self::separated(a.live().insert(i)),
            forall|y: int| a.live().insert(i).contains(y) ==> 1 <= y < Self::tree_len(),
            Self::slot(a.live().insert(i), i) == USED as int,
            i == 1 ==> sub_free(a.live(), 1, H as nat),
    {
        let s = a.live();
        let s2 = s.insert(i);
        lemma_depth(i, lvl);
        lemma_pow2_pos(lvl);
        if lvl < H {
            lemma_pow2_strictly_increases(lvl + 1, H as nat + 1);
        }
        assert forall|x: int|
            1 <= x < a@.len() && x != i && !is_ancestor(x, i) implies #[trigger] Self::slot(s2, x)
            == Self::slot(s, x) by {
            assert forall|r: nat| r <= Self::height(x) implies up(i, r) != x by {
                if r > 0 && up(i, r) == x {
                    lemma_up_depth(i, r);
                }
            }
            lemma_enc_insert_outside(s, i, x, Self::height(x));
        }
        assert forall|x: int| is_ancestor(x, i) implies !s2.contains(x) by {
            let r = (depth(i) - depth(x)) as nat;
            lemma_path_clear(s, i, lvl, r);
            lemma_up_depth(i, r);
        }
        assert forall|y: int, r: nat|
            s2.contains(y) && r > 0 && 0 <= y implies !s2.contains(#[trigger] up(y, r)) by {
            lemma_up_depth(y, r);
            if y == i {
                if r <= lvl {
                    lemma_path_clear(s, i, lvl, r);
                }
            } else {
                assert(s.contains(y));
                if up(y, r) == i {
                    Self::lemma_node(y);
                    lemma_sub_free_below(s, i, (H - lvl) as nat, y, r);
                }
            }
        }
        if i == 1 {
            lemma2_to64();
        }
    }

    /// `x / d < p` when `x < d * p`.
    proof fn lemma_quotient_below(x: int, d: int, p: int)
        requires
            0 <= x < d * p,
            d > 0,
        ensures
            0 <= x / d < p,
            d * (x / d) <= x,
    {
        vstd::arithmetic::div_mod::lemma_fundamental_div_mod(x, d);
        vstd::arithmetic::div_mod::lemma_div_pos_is_pos(x, d);
        let q = x / d;
        assert(0 <= x % d < d);
        assert(q < p) by (nonlinear_arith)
            requires
                d * q <= x,
                x < d * p,
                d > 0,
        ;
    }

    /// Where the block of a node lies: inside the region, at a multiple of
    /// both the unit and its own size.
    pub proof fn lemma_node_block(j: int)
        requires
            Self::params_ok(),
            1 <= j < Self::tree_len(),
        ensures
            0 <= Self::node_start(j),
            Self::node_start(j) + Self::node_size(j) <= Self::max_size(),
            Self::node_start(j) % (U as int) == 0,
            Self::node_start(j) % Self::node_size(j) == 0,
            Self::node_size(j) % (U as int) == 0,
            Self::node_size(j) > 0,
    {
        Self::lemma_node(j);
        let d = depth(j);
        Self::lemma_level_size(d);
        lemma_pow2_unfold(d + 1);
        let p = pow2(d) as int;
        let b = Self::level_size(d);
        let u = U as int;
        let q = pow2((H - d) as nat) as int;
        assert(0 <= (j - p) * b) by (nonlinear_arith)
            requires
                j - p >= 0,
                b > 0,
        ;
        assert((j - p) * b + b <= p * b) by (nonlinear_arith)
            requires
                j - p < p,
                b > 0,
        ;
        assert(b * p == p * b) by (nonlinear_arith);
        assert((j - p) * b == ((j - p) * q) * u) by (nonlinear_arith)
            requires
                b == u * q,
        ;
        Self::lemma_level_size(H as nat);
        vstd::arithmetic::div_mod::lemma_mod_multiples_basic((j - p) * q, u);
        vstd::arithmetic::div_mod::lemma_mod_multiples_basic(j - p, b);
        vstd::arithmetic::div_mod::lemma_mod_multiples_basic(q, u);
        assert(b == q * u) by (nonlinear_arith)
            requires
                b == u * q,
        ;
    }

    /// The leaf under byte `off` lies below every live node whose block
    /// starts at `off`.
    proof fn lemma_owner_above_leaf(j: int, off: int)
        requires
            Self::params_ok(),
            1 <= j < Self::tree_len(),
            Self::node_start(j) == off,
        ensures
            up(pow2(H as nat) + off / (U as int), Self::height(j)) == j,
    {
        Self::lemma_node(j);
        let d = depth(j);
        Self::lemma_level_size(d);
        Self::lemma_level_size(H as nat);
        let p = pow2(d) as int;
        let q = pow2((H - d) as nat) as int;
        let u = U as int;
        lemma_pow2_adds(d, (H - d) as nat);
        assert(d + (H - d) as nat == H as nat);
        assert(off == u * ((j - p) * q)) by (nonlinear_arith)
            requires
                off == (j - p) * (u * q),
        ;
        vstd::arithmetic::div_mod::lemma_div_multiples_vanish((j - p) * q, u);
        assert(pow2(H as nat) + (j - p) * q == j * q) by (nonlinear_arith)
            requires
                pow2(H as nat) == p * q,
        ;
        assert((j + 1) * q == j * q + q) by (nonlinear_arith);
        lemma_pow2_pos((H - d) as nat);
        lemma_up_range(j * q, j, (H - d) as nat);
    }

    /// What giving back the live node `i` needs of the slots.
    proof fn lemma_give_back(a: Self, i: int)
        requires
            a.wf(),
            a.live().contains(i),
        ensures
            forall|x: int|
                1 <= x < a@.len() && x != i && !is_ancestor(x, i) ==> #[trigger] Self::slot(
                    a.live().remove(i),
                    x,
                ) == Self::slot(a.live(), x),
            forall|x: int| is_ancestor(x, i) ==> !a.live().remove(i).contains(x),
            Self::separated(a.live().remove(i)),
            forall|y: int| a.live().remove(i).contains(y) ==> 1 <= y < Self::tree_len(),
            Self::slot(a.live().remove(i), i) == 0,
            sub_free(a.live().remove(i), i, Self::height(i)),
    {
        let s = a.live();
        let s2 = s.remove(i);
        Self::lemma_node(i);
        let h = Self::height(i);
        if h > 0 {
            assert forall|c: int| c == 2 * i || c == 2 * i + 1 implies #[trigger] sub_free(
                s,
                c,
                (h - 1) as nat,
            ) by {
                if !sub_free(s, c, (h - 1) as nat) {
                    let (y, r) = lemma_not_sub_free(s, c, (h - 1) as nat);
                    lemma_up_step(y, r);
                    assert(up(y, r + 1) == i);
                    assert(!s.contains(up(y, r + 1)));
                }
            }
            lemma_sub_free_subset(s2, s, 2 * i, (h - 1) as nat);
            lemma_sub_free_subset(s2, s, 2 * i + 1, (h - 1) as nat);
        }
        lemma_enc_zero(s2, i, h);
        assert(s2.insert(i) =~= s);
        assert forall|x: int|
            1 <= x < a@.len() && x != i && !is_ancestor(x, i) implies #[trigger] Self::slot(s2, x)
            == Self::slot(s, x) by {
            assert forall|r: nat| r <= Self::height(x) implies up(i, r) != x by {
                if r > 0 && up(i, r) == x {
                    lemma_up_depth(i, r);
                }
            }
            lemma_enc_insert_outside(s2, i, x, Self::height(x));
        }
        assert forall|x: int| is_ancestor(x, i) implies !s2.contains(x) by {
            let r = (depth(i) - depth(x)) as nat;
            assert(!s.contains(up(i, r)));
        }
    }

    /// Frees the live node `i` and recomputes its ancestors.
    fn release(&mut self, i: usize)
        requires
            old(self).wf(),
            old(self).live().contains(i as int),
        ensures
            final(self).wf(),
            final(self).live() == old(self).live().remove(i as int),
            final(self)@[1] <= old(self)@[1],
    {
        let ghost s = self.live();
        let ghost s2 = s.remove(i as int);
        proof {
            Self::lemma_give_back(*old(self), i as int);
        }
        self.tree.set(i, 0);
        proof {
            Self::lemma_before_push(*old(self), self@, i as int, s2);
        }
        self.push_up(i);
        proof {
            Self::lemma_pushed_encodes(self@, i as int, s2);
            lemma_pow2_unfold(H as nat + 1);
            lemma_pow2_pos(H as nat);
            Self::lemma_live_from_slots(*self, s2);
            Self::lemma_node(1);
            if i == 1 {
                assert(Self::height(1) == H);
            }
            lemma_enc_monotone(s2, s, 1, H as nat);
            assert(self@[1] as int == Self::slot(s2, 1));
            assert(old(self)@[1] as int == Self::slot(s, 1));
        }
    }

    /// Gives back the block at `off` that a request of `size` bytes took.
    /// Fails, changing nothing, unless such a block is live there.
    pub fn dealloc(&mut self, off: usize, size: usize) -> (r: Result<(), ()>)
        requires
            old(self).wf(),
        ensures
            final(self).wf(),
            match Self::dealloc_node(old(self).live(), off as int, size as int) {
                Some(j) => r is Ok && final(self).live() == old(self).live().remove(j),
                None => r is Err && final(self)@ == old(self)@,
            },
            final(self)@[1] <= old(self)@[1],
    {
        proof {
            lemma_pow2_unfold(H as nat + 1);
            lemma_pow2_pos(H as nat);
        }
        let lvl = match Self::lvl_for_size(size) {
            Ok(l) => l,
            Err(()) => return Err(()),
        };
        proof {
            Self::lemma_level_size(lvl as nat);
            Self::lemma_level_size(0);
        }
        let block = scaled(U, H - lvl);
        let max_size = scaled(U, H);
        if off >= max_size || off % block != 0 {
            return Err(());
        }
        proof {
            lemma_pow2_strictly_increases(lvl as nat, H as nat + 1);
        }
        let first = scaled(1, lvl);
        proof {
            assert(block * first == first * block) by (nonlinear_arith);
            Self::lemma_quotient_below(off as int, block as int, first as int);
            lemma_pow2_unfold(lvl as nat + 1);
            if lvl < H {
                lemma_pow2_strictly_increases(lvl as nat + 1, H as nat + 1);
            }
        }
        let i = first + off / block;
        if self.tree[i] != USED {
            return Err(());
        }
        self.release(i);
        Ok(())
    }

    /// The live node whose block starts at byte `off`, with its height.
    fn find_owner(&self, off: usize) -> (r: Option<(usize, u8)>)
        requires
            self.wf(),
        ensures
            r matches Some((j, h)) ==> self.live().contains(j as int) && Self::node_start(j as int)
                == off && h == Self::height(j as int) && h <= H,
            r matches Some((j, h)) ==> forall|k: int| #[trigger]
                self.live().contains(k) && Self::node_start(k) == off ==> k == j,
            r is None ==> forall|j: int| #[trigger]
                self.live().contains(j) ==> Self::node_start(j) != off,
    {
        let ghost s = self.live();
        proof {
            lemma_pow2_unfold(H as nat + 1);
            lemma_pow2_pos(H as nat);
            Self::lemma_level_size(H as nat);
            Self::lemma_level_size(0);
        }
        let max_size = scaled(U, H);
        if off >= max_size || off % U != 0 {
            proof {
                assert forall|j: int| #[trigger] s.contains(j) implies Self::node_start(j) != off by {
                    Self::lemma_node_block(j);
                }
            }
            return None;
        }
        let first = scaled(1, H);
        proof {
            assert(U * first == first * U) by (nonlinear_arith);
            Self::lemma_quotient_below(off as int, U as int, first as int);
        }
        let leaf = first + off / U;
        let ghost lf = leaf as int;
        let mut i: usize = leaf;
        let mut h: u8 = 0;
        proof {
            lemma_depth(lf, H as nat);
        }
        while i > 1 && self.tree[i] != USED
            invariant
                self.wf(),
                s == self.live(),
                lf >= 1,
                h <= H,
                1 <= i < Self::tree_len(),
                i as int == up(lf, h as nat),
                depth(i as int) == H - h,
                forall|r: nat| r < h ==> !s.contains(#[trigger] up(lf, r)),
            decreases i,
        {
            proof {
                lemma_up_step(lf, h as nat);
                assert(!s.contains(i as int));
                if h == H {
                    assert(depth(i as int) == 0);
                }
            }
            i = i / 2;
            h = h + 1;
        }
        proof {
            Self::lemma_node(i as int);
        }
        let found = self.tree[i] == USED;
        if !found {
            proof {
                assert(depth(i as int) == 0);
                assert forall|j: int| #[trigger] s.contains(j) implies Self::node_start(j) != off by {
                    if Self::node_start(j) == off {
                        Self::lemma_owner_above_leaf(j, off as int);
                        Self::lemma_node(j);
                        assert(Self::height(j) <= h);
                        if Self::height(j) < h {
                            assert(!s.contains(up(lf, Self::height(j))));
                        }
                    }
                }
            }
            return None;
        }
        proof {
            lemma_pow2_strictly_increases((H - h) as nat, H as nat + 1);
            Self::lemma_level_size((H - h) as nat);
            lemma_pow2_unfold((H - h) as nat + 1);
            assert((H - (H - h) as nat) as nat == h as nat);
        }
        let level_first = scaled(1, H - h);
        let size = scaled(U, h);
        proof {
            let b = size as int;
            let p = level_first as int;
            assert((i - p) * b < p * b) by (nonlinear_arith)
                requires
                    0 <= i - p < p,
                    b > 0,
            ;
            assert(0 <= (i - p) * b) by (nonlinear_arith)
                requires
                    0 <= i - p,
                    b > 0,
            ;
            assert(p * b == b * p) by (nonlinear_arith);
        }
        let start = (i - level_first) * size;
        if start != off {
            proof {
                assert forall|j: int| #[trigger] s.contains(j) implies Self::node_start(j) != off by {
                    if Self::node_start(j) == off {
                        Self::lemma_owner_above_leaf(j, off as int);
                        Self::lemma_node(j);
                        let hj = Self::height(j);
                        if hj < h {
                            assert(!s.contains(up(lf, hj)));
                        } else if hj > h {
                            lemma_up_add(lf, h as nat, (hj - h) as nat);
                            assert(s.contains(i as int));
                            assert(!s.contains(up(i as int, (hj - h) as nat)));
                        }
                    }
                }
            }
            return None;
        }
        proof {
            assert forall|k: int| #[trigger]
                s.contains(k) && Self::node_start(k) == off implies k == i as int by {
                crate::laws::lemma_unique_start(*self, k, i as int);
            }
        }
        Some((i, h))
    }

    /// Size in bytes of the live block that starts at `off`, if there is one.
    pub fn alloc_size_of(&self, off: usize) -> (r: Option<usize>)
        requires
            self.wf(),
        ensures
            r matches Some(n) ==> exists|j: int|
                self.live().contains(j) && Self::node_start(j) == off && Self::node_size(j) == n,
            r matches Some(n) ==> forall|j: int| #[trigger]
                self.live().contains(j) && Self::node_start(j) == off ==> Self::node_size(j) == n,
            r is None <==> forall|j: int| #[trigger]
                self.live().contains(j) ==> Self::node_start(j) != off,
    {
        match self.find_owner(off) {
            Some((i, h)) => {
                proof {
                    Self::lemma_node(i as int);
                    Self::lemma_level_size(depth(i as int));
                    Self::lemma_level_size(H as nat);
                    assert((H - depth(i as int)) as nat == h as nat);
                    assert(Self::node_size(i as int) == U * pow2(h as nat));
                    Self::lemma_level_size(0);
                    if h < H {
                        lemma_pow2_strictly_increases(h as nat, H as nat);
                    }
                    assert(U * pow2(h as nat) <= U * pow2(H as nat)) by (nonlinear_arith)
                        requires
                            pow2(h as nat) <= pow2(H as nat),
                    ;
                }
                let n = scaled(U, h);
                proof {
                    assert(self.live().contains(i as int));
                }
                Some(n)
            },
            None => None,
        }
    }

    /// Gives back the live block that starts at `off`, whatever its size.
    /// Fails, changing nothing, unless a live block starts there.
    pub fn dealloc_auto_size(&mut self, off: usize) -> (r: Result<(), ()>)
        requires
            old(self).wf(),
        ensures
            final(self).wf(),
            r is Ok <==> exists|j: int| #[trigger]
                old(self).live().contains(j) && Self::node_start(j) == off,
            r is Ok ==> exists|j: int|
                old(self).live().contains(j) && Self::node_start(j) == off && final(self).live()
                    == old(self).live().remove(j),
            r is Ok ==> forall|j: int| #[trigger]
                old(self).live().contains(j) && Self::node_start(j) == off ==> final(self).live()
                    == old(self).live().remove(j),
            r is Err ==> final(self)@ == old(self)@,
            final(self)@[1] <= old(self)@[1],
    {
        proof {
            lemma_pow2_unfold(H as nat + 1);
            lemma_pow2_pos(H as nat);
        }
        match self.find_owner(off) {
            Some((i, _)) => {
                self.release(i);
                proof {
                    assert(old(self).live().contains(i as int));
                }
                Ok(())
            },
            None => Err(()),
        }
    }

    /// The slots of the tree, node 0 included.
    pub fn tree_bytes(&self) -> (r: &[u8])
        ensures
            r@ == self@,
    {
        self.tree.as_slice()
    }
}

} // verus!
