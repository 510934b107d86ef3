//! Properties of the allocator that relate several states or calls.
use crate::geometry::{
    depth, free_at, lemma_depth, lemma_depth_of_node, lemma_enc_monotone, lemma_enc_zero,
    lemma_not_sub_free, lemma_path_clear_empty, lemma_sub_free_empty, lemma_up_depth,
    lemma_up_div, lemma_up_step, sub_free, up,
};
use crate::heap::SegTreeAlloc;
use vstd::set::fold::{is_fun_commutative, lemma_fold_empty, lemma_fold_insert};
use vstd::arithmetic::power2::{
    lemma2_to64,
    lemma_pow2_adds, lemma_pow2_pos, lemma_pow2_strictly_increases, lemma_pow2_unfold, pow2,
};
use vstd::prelude::*;

verus! {

/// The block of a node lies within the block of each of its ancestors.
proof fn lemma_block_within<const U: usize, const H: u8>(k: int, r: nat)
    requires
        SegTreeAlloc::<U, H>::params_ok(),
        1 <= k < SegTreeAlloc::<U, H>::tree_len(),
        r <= depth(k),
    ensures
        SegTreeAlloc::<U, H>::node_start(up(k, r)) <= SegTreeAlloc::<U, H>::node_start(k),
        SegTreeAlloc::<U, H>::node_start(k) + SegTreeAlloc::<U, H>::node_size(k)
            <= SegTreeAlloc::<U, H>::node_start(up(k, r)) + SegTreeAlloc::<U, H>::node_size(
            up(k, r),
        ),
{
    SegTreeAlloc::<U, H>::lemma_node(k);
    lemma_up_depth(k, r);
    let c = up(k, r);
    let dk = depth(k);
    let dc = depth(c);
    assert(dc + r == dk);
    lemma_up_div(k, r);
    lemma_pow2_pos(r);
    let pr = pow2(r) as int;
    vstd::arithmetic::div_mod::lemma_fundamental_div_mod(k, pr);
    assert(c * pr <= k < (c + 1) * pr) by (nonlinear_arith)
        requires
            k == pr * c + k % pr,
            0 <= k % pr < pr,
    ;
    let bk = SegTreeAlloc::<U, H>::level_size(dk);
    let bc = SegTreeAlloc::<U, H>::level_size(dc);
    let u = U as int;
    SegTreeAlloc::<U, H>::lemma_level_size(dk);
    lemma_pow2_adds((H - dk) as nat, r);
    assert((H - dk) as nat + r == (H - dc) as nat);
    let qk = pow2((H - dk) as nat) as int;
    assert(bc == bk * pr) by (nonlinear_arith)
        requires
            bc == u * pow2((H - dc) as nat),
            pow2((H - dc) as nat) == qk * pr,
            bk == u * qk,
    ;
    lemma_pow2_adds(dc, r);
    let pc = pow2(dc) as int;
    let pk = pow2(dk) as int;
    assert(pk == pc * pr);
    assert((c - pc) * bc <= (k - pk) * bk) by (nonlinear_arith)
        requires
            bc == bk * pr,
            pk == pc * pr,
            c * pr <= k,
            bk > 0,
    ;
    assert((k - pk) * bk + bk <= (c - pc) * bc + bc) by (nonlinear_arith)
        requires
            bc == bk * pr,
            pk == pc * pr,
            k + 1 <= (c + 1) * pr,
            bk > 0,
    ;
}

/// Live blocks never overlap.
pub proof fn lemma_live_blocks_disjoint<const U: usize, const H: u8>(
    a: SegTreeAlloc<U, H>,
    j: int,
    k: int,
)
    requires
        a.wf(),
        a.live().contains(j),
        a.live().contains(k),
        j != k,
    ensures
        SegTreeAlloc::<U, H>::node_start(j) + SegTreeAlloc::<U, H>::node_size(j)
            <= SegTreeAlloc::<U, H>::node_start(k) || SegTreeAlloc::<U, H>::node_start(k)
            + SegTreeAlloc::<U, H>::node_size(k) <= SegTreeAlloc::<U, H>::node_start(j),
{
    if depth(j) <= depth(k) {
        lemma_disjoint_ordered(a, j, k);
    } else {
        lemma_disjoint_ordered(a, k, j);
    }
}

proof fn lemma_disjoint_ordered<const U: usize, const H: u8>(a: SegTreeAlloc<U, H>, j: int, k: int)
    requires
        a.wf(),
        a.live().contains(j),
        a.live().contains(k),
        j != k,
        depth(j) <= depth(k),
    ensures
        SegTreeAlloc::<U, H>::node_start(j) + SegTreeAlloc::<U, H>::node_size(j)
            <= SegTreeAlloc::<U, H>::node_start(k) || SegTreeAlloc::<U, H>::node_start(k)
            + SegTreeAlloc::<U, H>::node_size(k) <= SegTreeAlloc::<U, H>::node_start(j),
{
    let r = (depth(k) - depth(j)) as nat;
    let c = up(k, r);
    lemma_up_depth(k, r);
    if r > 0 {
        assert(!a.live().contains(up(k, r)));
    }
    assert(c != j);
    lemma_block_within::<U, H>(k, r);
    SegTreeAlloc::<U, H>::lemma_node(j);
    SegTreeAlloc::<U, H>::lemma_node(c);
    let d = depth(j);
    assert(depth(c) == d);
    let p = pow2(d) as int;
    let b = SegTreeAlloc::<U, H>::level_size(d);
    SegTreeAlloc::<U, H>::lemma_level_size(d);
    if j < c {
        assert((j - p) * b + b <= (c - p) * b) by (nonlinear_arith)
            requires
                j + 1 <= c,
                b > 0,
        ;
    } else {
        assert((c - p) * b + b <= (j - p) * b) by (nonlinear_arith)
            requires
                c + 1 <= j,
                b > 0,
        ;
    }
}

/// Every live block lies inside the region.
pub proof fn lemma_live_block_in_range<const U: usize, const H: u8>(a: SegTreeAlloc<U, H>, j: int)
    requires
        a.wf(),
        a.live().contains(j),
    ensures
        0 <= SegTreeAlloc::<U, H>::node_start(j),
        SegTreeAlloc::<U, H>::node_start(j) + SegTreeAlloc::<U, H>::node_size(j)
            <= SegTreeAlloc::<U, H>::max_size(),
{
    SegTreeAlloc::<U, H>::lemma_node_block(j);
}

/// Every live block starts at a multiple of the unit and of its own size.
pub proof fn lemma_live_block_aligned<const U: usize, const H: u8>(a: SegTreeAlloc<U, H>, j: int)
    requires
        a.wf(),
        a.live().contains(j),
    ensures
        SegTreeAlloc::<U, H>::node_start(j) % (U as int) == 0,
        SegTreeAlloc::<U, H>::node_start(j) % SegTreeAlloc::<U, H>::node_size(j) == 0,
{
    SegTreeAlloc::<U, H>::lemma_node_block(j);
}

/// Allocators in the same state answer a request alike: they take the same
/// node, and the states they are left in are equal byte for byte.
pub proof fn lemma_alloc_deterministic<const U: usize, const H: u8>(
    a1: SegTreeAlloc<U, H>,
    a2: SegTreeAlloc<U, H>,
    b1: SegTreeAlloc<U, H>,
    b2: SegTreeAlloc<U, H>,
    size: int,
)
    requires
        a1.wf(),
        a2.wf(),
        b1.wf(),
        b2.wf(),
        a1@ == a2@,
        b1.live() == match SegTreeAlloc::<U, H>::alloc_node(a1.live(), size) {
            Some(j) => a1.live().insert(j),
            None => a1.live(),
        },
        b2.live() == match SegTreeAlloc::<U, H>::alloc_node(a2.live(), size) {
            Some(j) => a2.live().insert(j),
            None => a2.live(),
        },
    ensures
        SegTreeAlloc::<U, H>::alloc_node(a1.live(), size) == SegTreeAlloc::<U, H>::alloc_node(
            a2.live(),
            size,
        ),
        b1@ == b2@,
{
    assert(a1.live() =~= a2.live());
    SegTreeAlloc::<U, H>::lemma_layout_determined(b1, b2);
}

/// Allocators in the same state answer a release alike.
pub proof fn lemma_dealloc_deterministic<const U: usize, const H: u8>(
    a1: SegTreeAlloc<U, H>,
    a2: SegTreeAlloc<U, H>,
    b1: SegTreeAlloc<U, H>,
    b2: SegTreeAlloc<U, H>,
    off: int,
    size: int,
)
    requires
        a1.wf(),
        a2.wf(),
        b1.wf(),
        b2.wf(),
        a1@ == a2@,
        b1.live() == match SegTreeAlloc::<U, H>::dealloc_node(a1.live(), off, size) {
            Some(j) => a1.live().remove(j),
            None => a1.live(),
        },
        b2.live() == match SegTreeAlloc::<U, H>::dealloc_node(a2.live(), off, size) {
            Some(j) => a2.live().remove(j),
            None => a2.live(),
        },
    ensures
        SegTreeAlloc::<U, H>::dealloc_node(a1.live(), off, size)
            == SegTreeAlloc::<U, H>::dealloc_node(a2.live(), off, size),
        b1@ == b2@,
{
    assert(a1.live() =~= a2.live());
    SegTreeAlloc::<U, H>::lemma_layout_determined(b1, b2);
}

/// The node taken for a request is free, and no free block of its level
/// starts before it.
pub proof fn lemma_left_first<const U: usize, const H: u8>(s: Set<int>, size: int, k: int)
    requires
        SegTreeAlloc::<U, H>::params_ok(),
        SegTreeAlloc::<U, H>::alloc_node(s, size) is Some,
        1 <= k,
    ensures
        ({
            let j = SegTreeAlloc::<U, H>::alloc_node(s, size)->0;
            let lvl = depth(j);
            &&& free_at(s, j, lvl, H as nat)
            &&& (depth(k) == lvl && free_at(s, k, lvl, H as nat)) ==> SegTreeAlloc::<
                U,
                H,
            >::node_start(j) <= SegTreeAlloc::<U, H>::node_start(k)
        }),
{
    let lvl = SegTreeAlloc::<U, H>::request_level(size)->0;
    SegTreeAlloc::<U, H>::lemma_fit_level_le(size, H as nat);
    SegTreeAlloc::<U, H>::lemma_first_free_found(s, lvl, pow2(lvl) as int);
    let j = SegTreeAlloc::<U, H>::alloc_node(s, size)->0;
    lemma_depth(j, lvl);
    if depth(k) == lvl && free_at(s, k, lvl, H as nat) {
        lemma_depth_of_node(k);
        assert(!(k < j));
        let p = pow2(lvl) as int;
        let b = SegTreeAlloc::<U, H>::level_size(lvl);
        SegTreeAlloc::<U, H>::lemma_level_size(lvl);
        assert((j - p) * b <= (k - p) * b) by (nonlinear_arith)
            requires
                j <= k,
                b > 0,
        ;
    }
}

/// Taking a block for `size` bytes and giving it back at its offset with the
/// same size restores the tree byte for byte.
pub proof fn lemma_round_trip<const U: usize, const H: u8>(
    a: SegTreeAlloc<U, H>,
    b: SegTreeAlloc<U, H>,
    c: SegTreeAlloc<U, H>,
    size: int,
)
    requires
        a.wf(),
        b.wf(),
        c.wf(),
        SegTreeAlloc::<U, H>::alloc_node(a.live(), size) is Some,
        b.live() == a.live().insert(SegTreeAlloc::<U, H>::alloc_node(a.live(), size)->0),
        c.live() == match SegTreeAlloc::<U, H>::dealloc_node(
            b.live(),
            SegTreeAlloc::<U, H>::node_start(SegTreeAlloc::<U, H>::alloc_node(a.live(), size)->0),
            size,
        ) {
            Some(k) => b.live().remove(k),
            None => b.live(),
        },
    ensures
        SegTreeAlloc::<U, H>::dealloc_node(
            b.live(),
            SegTreeAlloc::<U, H>::node_start(SegTreeAlloc::<U, H>::alloc_node(a.live(), size)->0),
            size,
        ) == SegTreeAlloc::<U, H>::alloc_node(a.live(), size),
        c@ == a@,
{
    let s = a.live();
    let lvl = SegTreeAlloc::<U, H>::request_level(size)->0;
    SegTreeAlloc::<U, H>::lemma_fit_level_le(size, H as nat);
    SegTreeAlloc::<U, H>::lemma_first_free_found(s, lvl, pow2(lvl) as int);
    let j = SegTreeAlloc::<U, H>::alloc_node(s, size)->0;
    lemma_depth(j, lvl);
    lemma_pow2_pos(lvl);
    if lvl < H {
        lemma_pow2_strictly_increases(lvl + 1, H as nat + 1);
    }
    SegTreeAlloc::<U, H>::lemma_node_block(j);
    SegTreeAlloc::<U, H>::lemma_level_size(lvl);
    let p = pow2(lvl) as int;
    let bs = SegTreeAlloc::<U, H>::level_size(lvl);
    let off = SegTreeAlloc::<U, H>::node_start(j);
    vstd::arithmetic::div_mod::lemma_div_by_multiple(j - p, bs);
    vstd::arithmetic::div_mod::lemma_mod_multiples_basic(j - p, bs);
    assert(p + off / bs == j);
    assert(!s.contains(j));
    assert(s.insert(j).remove(j) =~= s);
    SegTreeAlloc::<U, H>::lemma_layout_determined(c, a);
}

/// Once no block is live the tree is all zeros, as in a fresh allocator, and
/// a request for half the region is served at offset 0.
pub proof fn lemma_full_heap_recovery<const U: usize, const H: u8>(a: SegTreeAlloc<U, H>)
    requires
        a.wf(),
        a.live() == Set::<int>::empty(),
        SegTreeAlloc::<U, H>::max_size() >= 2,
    ensures
        forall|i: int| 0 <= i < a@.len() ==> a@[i] == 0,
        SegTreeAlloc::<U, H>::alloc_node(a.live(), SegTreeAlloc::<U, H>::max_size() / 2) is Some,
        SegTreeAlloc::<U, H>::node_start(
            SegTreeAlloc::<U, H>::alloc_node(a.live(), SegTreeAlloc::<U, H>::max_size() / 2)->0,
        ) == 0,
{
    let s = a.live();
    assert forall|i: int| 0 <= i < a@.len() implies a@[i] == 0 by {
        if i >= 1 {
            SegTreeAlloc::<U, H>::lemma_node(i);
            lemma_sub_free_empty(i, SegTreeAlloc::<U, H>::height(i));
            lemma_enc_zero(s, i, SegTreeAlloc::<U, H>::height(i));
            assert(a@[i] as int == SegTreeAlloc::<U, H>::slot(s, i));
        }
    }
    let size = SegTreeAlloc::<U, H>::max_size() / 2;
    let lvl = SegTreeAlloc::<U, H>::fit_level(size, H as nat);
    SegTreeAlloc::<U, H>::lemma_fit_level_le(size, H as nat);
    let j = pow2(lvl) as int;
    lemma_pow2_unfold(lvl + 1);
    lemma_pow2_pos(lvl);
    lemma_path_clear_empty(j, lvl);
    lemma_sub_free_empty(j, (H - lvl) as nat);
    SegTreeAlloc::<U, H>::lemma_first_free_some(s, lvl, j, j);
    assert(SegTreeAlloc::<U, H>::request_level(size) == Some(lvl));
    assert(SegTreeAlloc::<U, H>::first_free(s, lvl) == Some(j));
    lemma_depth(j, lvl);
    assert(j - pow2(depth(j)) == 0);
    let bs = SegTreeAlloc::<U, H>::level_size(depth(j));
    assert(0 * bs == 0);
}

/// The root slot never shrinks as blocks are taken: of two states whose live
/// sets are nested, the smaller has the smaller root slot.
pub proof fn lemma_root_monotone<const U: usize, const H: u8>(
    a: SegTreeAlloc<U, H>,
    b: SegTreeAlloc<U, H>,
)
    requires
        a.wf(),
        b.wf(),
        a.live().subset_of(b.live()),
    ensures
        a@[1] <= b@[1],
{
    let sa = a.live();
    let sb = b.live();
    lemma_pow2_unfold(H as nat + 1);
    lemma_pow2_pos(H as nat);
    SegTreeAlloc::<U, H>::lemma_node(1);
    if sb.contains(1) && !sa.contains(1) && !sub_free(sa, 1, H as nat) {
        let (y, r) = lemma_not_sub_free(sa, 1, H as nat);
        assert(sb.contains(y));
        if r == 0 {
            assert(up(y, 0) == y);
        } else {
            assert(!sb.contains(up(y, r)));
        }
    }
    lemma_enc_monotone(sa, sb, 1, H as nat);
    assert(a@[1] as int == SegTreeAlloc::<U, H>::slot(sa, 1));
    assert(b@[1] as int == SegTreeAlloc::<U, H>::slot(sb, 1));
}

/// At most one live block starts at a given offset.
pub proof fn lemma_unique_start<const U: usize, const H: u8>(
    a: SegTreeAlloc<U, H>,
    j: int,
    k: int,
)
    requires
        a.wf(),
        a.live().contains(j),
        a.live().contains(k),
        SegTreeAlloc::<U, H>::node_start(j) == SegTreeAlloc::<U, H>::node_start(k),
    ensures
        j == k,
{
    if j != k {
        lemma_live_blocks_disjoint(a, j, k);
        SegTreeAlloc::<U, H>::lemma_node_block(j);
        SegTreeAlloc::<U, H>::lemma_node_block(k);
    }
}

/// Adds the size of node `j`'s block to `acc`.
pub open spec fn add_size<const U: usize, const H: u8>() -> spec_fn(int, int) -> int {
    |acc: int, j: int| acc + SegTreeAlloc::<U, H>::node_size(j)
}

/// Total bytes of the blocks of the nodes in `t`.
pub open spec fn total_size<const U: usize, const H: u8>(t: Set<int>) -> int {
    t.fold(0int, add_size::<U, H>())
}

/// Node `y` lies in the subtree rooted at `i` (or is `i`).
pub open spec fn below(y: int, i: int) -> bool {
    depth(i) <= depth(y) && up(y, (depth(y) - depth(i)) as nat) == i
}

proof fn lemma_add_size_commutative<const U: usize, const H: u8>()
    ensures
        is_fun_commutative(add_size::<U, H>()),
{
}

proof fn lemma_total_union<const U: usize, const H: u8>(a: Set<int>, b: Set<int>)
    requires
        a.finite(),
        b.finite(),
        a.disjoint(b),
    ensures
        total_size::<U, H>(a + b) == total_size::<U, H>(a) + total_size::<U, H>(b),
    decreases b.len(),
{
    lemma_add_size_commutative::<U, H>();
    if b.len() == 0 {
        assert(b =~= Set::<int>::empty());
        assert(a + b =~= a);
        lemma_fold_empty(0int, add_size::<U, H>());
    } else {
        let x = b.choose();
        let b1 = b.remove(x);
        lemma_total_union::<U, H>(a, b1);
        assert(b1.insert(x) =~= b);
        assert((a + b1).insert(x) =~= a + b);
        lemma_fold_insert(b1, 0int, add_size::<U, H>(), x);
        lemma_fold_insert(a + b1, 0int, add_size::<U, H>(), x);
    }
}

/// A separated set of nodes in the subtree of `i` holds at most the bytes
/// of `i`'s block.
proof fn lemma_total_below<const U: usize, const H: u8>(t: Set<int>, i: int, h: nat)
    requires
        SegTreeAlloc::<U, H>::params_ok(),
        1 <= i,
        depth(i) + h == H,
        t.finite(),
        SegTreeAlloc::<U, H>::separated(t),
        forall|y: int| #[trigger] t.contains(y) ==> 1 <= y && below(y, i) && depth(y) <= H,
    ensures
        total_size::<U, H>(t) <= SegTreeAlloc::<U, H>::level_size(depth(i)),
    decreases h,
{
    lemma_add_size_commutative::<U, H>();
    SegTreeAlloc::<U, H>::lemma_level_size(depth(i));
    if t.contains(i) {
        assert forall|y: int| t.contains(y) implies y == i by {
            if y != i {
                let r = (depth(y) - depth(i)) as nat;
                assert(r > 0);
                assert(!t.contains(up(y, r)));
            }
        }
        assert(t =~= Set::<int>::empty().insert(i));
        lemma_fold_empty(0int, add_size::<U, H>());
        lemma_fold_insert(Set::<int>::empty(), 0int, add_size::<U, H>(), i);
    } else if h == 0 {
        assert forall|y: int| t.contains(y) implies false by {
            assert(up(y, 0) == y);
        }
        assert(t =~= Set::<int>::empty());
        lemma_fold_empty(0int, add_size::<U, H>());
    } else {
        let l = 2 * i;
        let r = 2 * i + 1;
        let tl = t.filter(|y: int| below(y, l));
        let tr = t.filter(|y: int| below(y, r));
        assert(depth(l) == depth(i) + 1);
        assert(depth(r) == depth(i) + 1);
        assert forall|y: int| t.contains(y) implies tl.contains(y) || tr.contains(y) by {
            let k = (depth(y) - depth(i)) as nat;
            assert(k > 0) by {
                if k == 0 {
                    assert(up(y, 0) == y);
                }
            }
            let km = (k - 1) as nat;
            lemma_up_step(y, km);
            lemma_up_depth(y, km);
            let c = up(y, km);
            assert(c == l || c == r);
        }
        assert(tl + tr =~= t);
        assert(tl.disjoint(tr));
        vstd::set_lib::lemma_set_subset_finite(t, tl);
        vstd::set_lib::lemma_set_subset_finite(t, tr);
        lemma_total_below::<U, H>(tl, l, (h - 1) as nat);
        lemma_total_below::<U, H>(tr, r, (h - 1) as nat);
        lemma_total_union::<U, H>(tl, tr);
        SegTreeAlloc::<U, H>::lemma_level_size(depth(l));
    }
}

/// The live blocks together take at most the whole region.
pub proof fn lemma_live_total_size<const U: usize, const H: u8>(a: SegTreeAlloc<U, H>)
    requires
        a.wf(),
    ensures
        a.live().finite(),
        total_size::<U, H>(a.live()) <= SegTreeAlloc::<U, H>::max_size(),
{
    let s = a.live();
    lemma_pow2_pos(H as nat + 1);
    vstd::set_lib::lemma_int_range(1, a@.len() as int);
    assert(s.subset_of(vstd::set_lib::set_int_range(1, a@.len() as int)));
    vstd::set_lib::lemma_set_subset_finite(vstd::set_lib::set_int_range(1, a@.len() as int), s);
    assert forall|y: int| #[trigger] s.contains(y) implies 1 <= y && below(y, 1) && depth(y)
        <= H by {
        SegTreeAlloc::<U, H>::lemma_node(y);
        lemma_up_depth(y, depth(y));
        let x = up(y, depth(y));
        if x > 1 {
            assert(depth(x) > 0);
        }
    }
    lemma2_to64();
    lemma_total_below::<U, H>(s, 1, H as nat);
    SegTreeAlloc::<U, H>::lemma_level_size(0);
}

} // verus!
