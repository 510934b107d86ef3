//! The shape of the implicit binary tree and the slot values that a set of
//! live nodes determines.
//!
//! Nodes are numbered as in a binary heap: the root is `1`, the children of
//! `i` are `2i` and `2i + 1`. A node at depth `d` lies in `[2^d, 2^(d+1))`.
use vstd::arithmetic::div_mod::{lemma_div_denominator, lemma_fundamental_div_mod_converse_div};
use vstd::arithmetic::power2::{lemma2_to64, lemma_pow2_pos, lemma_pow2_unfold, pow2};
use vstd::prelude::*;

verus! {

/// Slot value that marks the node owning a live block.
pub const USED: u8 = 0x80;

/// Value of a parent slot given the values of its two children.
pub open spec fn comb(a: int, b: int) -> int {
    if a == 0 && b == 0 {
        0
    } else if a <= b {
        a + 1
    } else {
        b + 1
    }
}

/// Depth of node `i`; the root has depth 0.
pub open spec fn depth(i: int) -> nat
    decreases i,
{
    if i <= 1 {
        0
    } else {
        1 + depth(i / 2)
    }
}

/// Whether `i` is a node at depth `d`.
pub open spec fn at_depth(i: int, d: nat) -> bool {
    pow2(d) <= i < pow2(d + 1)
}

/// The node `r` steps above `i` (0 once the root has been passed).
pub open spec fn up(i: int, r: nat) -> int
    decreases r,
{
    if r == 0 {
        i
    } else {
        up(i / 2, (r - 1) as nat)
    }
}

/// `x` is a strict ancestor of `p`.
pub open spec fn is_ancestor(x: int, p: int) -> bool {
    depth(x) < depth(p) && up(p, (depth(p) - depth(x)) as nat) == x
}

/// The slot value that the set `s` of live nodes gives to node `i` of
/// height `h`: `USED` on a live node, otherwise the push-up of its children.
pub open spec fn enc(s: Set<int>, i: int, h: nat) -> int
    decreases h,
{
    if s.contains(i) {
        USED as int
    } else if h == 0 {
        0
    } else {
        comb(enc(s, 2 * i, (h - 1) as nat), enc(s, 2 * i + 1, (h - 1) as nat))
    }
}

/// No node of `s` lies in the subtree of height `h` rooted at `i`.
pub open spec fn sub_free(s: Set<int>, i: int, h: nat) -> bool
    decreases h,
{
    !s.contains(i) && (h == 0 || (sub_free(s, 2 * i, (h - 1) as nat) && sub_free(
        s,
        2 * i + 1,
        (h - 1) as nat,
    )))
}

/// No node of `s` lies on the path from `i` up `r` steps, both ends included.
pub open spec fn path_clear(s: Set<int>, i: int, r: nat) -> bool
    decreases r,
{
    !s.contains(i) && (r == 0 || path_clear(s, i / 2, (r - 1) as nat))
}

/// Node `j` at depth `d` of a tree of height `h` is a free block: nothing
/// live above it or below it.
pub open spec fn free_at(s: Set<int>, j: int, d: nat, h: nat) -> bool {
    path_clear(s, j, d) && sub_free(s, j, (h - d) as nat)
}

/// Walking up `r` steps divides by `2^r`.
pub proof fn lemma_up_div(i: int, r: nat)
    requires
        0 <= i,
    ensures
        up(i, r) == i / (pow2(r) as int),
    decreases r,
{
    lemma_pow2_pos(r);
    if r == 0 {
        lemma2_to64();
    } else {
        lemma_up_div(i / 2, (r - 1) as nat);
        lemma_pow2_unfold(r);
        lemma_pow2_pos((r - 1) as nat);
        lemma_div_denominator(i, 2, pow2((r - 1) as nat) as int);
    }
}

/// One more step up halves the node.
pub proof fn lemma_up_step(i: int, r: nat)
    requires
        0 <= i,
    ensures
        up(i, r + 1) == up(i, r) / 2,
{
    lemma_up_div(i, r);
    lemma_up_div(i, r + 1);
    lemma_pow2_unfold(r + 1);
    lemma_pow2_pos(r);
    lemma_div_denominator(i, pow2(r) as int, 2);
    assert(pow2(r) * 2 == pow2(r + 1));
}

/// The nodes `c * 2^r .. (c + 1) * 2^r` lie `r` levels below `c`.
pub proof fn lemma_up_range(k: int, c: int, r: nat)
    requires
        0 <= c,
        c * pow2(r) <= k < (c + 1) * pow2(r),
    ensures
        up(k, r) == c,
{
    lemma_up_div(k, r);
    lemma_pow2_pos(r);
    let p = pow2(r) as int;
    assert(k == c * p + (k - c * p));
    assert((c + 1) * p == c * p + p) by (nonlinear_arith);
    lemma_fundamental_div_mod_converse_div(k, p, c, k - c * p);
}

/// A node in `[2^d, 2^(d+1))` has depth `d`.
pub proof fn lemma_depth(i: int, d: nat)
    requires
        at_depth(i, d),
    ensures
        depth(i) == d,
    decreases d,
{
    if d == 0 {
        lemma2_to64();
    } else {
        lemma_pow2_unfold(d);
        lemma_pow2_unfold(d + 1);
        lemma_depth(i / 2, (d - 1) as nat);
    }
}

/// Every node lies in the range of its depth.
pub proof fn lemma_depth_of_node(i: int)
    requires
        1 <= i,
    ensures
        at_depth(i, depth(i)),
    decreases i,
{
    if i == 1 {
        lemma2_to64();
    } else {
        lemma_depth_of_node(i / 2);
        lemma_pow2_unfold(depth(i));
        lemma_pow2_unfold(depth(i) + 1);
    }
}

/// Walking up from a node stays on nodes until the root is passed.
pub proof fn lemma_up_depth(i: int, r: nat)
    requires
        1 <= i,
    ensures
        r <= depth(i) ==> up(i, r) >= 1 && depth(up(i, r)) == depth(i) - r,
        r > depth(i) ==> up(i, r) == 0,
        r > 0 ==> up(i, r) < i,
    decreases r,
{
    if r > 0 {
        if i == 1 {
            lemma_up_div(0, (r - 1) as nat);
            lemma_pow2_pos((r - 1) as nat);
        } else {
            lemma_up_depth(i / 2, (r - 1) as nat);
        }
    }
}

/// A clear path holds no live node at any step, and its lower part is clear.
pub proof fn lemma_path_clear(s: Set<int>, j: int, d: nat, r: nat)
    requires
        path_clear(s, j, d),
        r <= d,
    ensures
        !s.contains(up(j, r)),
        path_clear(s, j, r),
    decreases r,
{
    if r > 0 {
        lemma_path_clear(s, j / 2, (d - 1) as nat, (r - 1) as nat);
    }
}

/// A node `r <= h` levels below a free subtree's root is not live.
pub proof fn lemma_sub_free_below(s: Set<int>, c: int, h: nat, y: int, r: nat)
    requires
        sub_free(s, c, h),
        up(y, r) == c,
        r <= h,
        0 <= y,
    ensures
        !s.contains(y),
    decreases r,
{
    if r > 0 {
        lemma_up_step(y, (r - 1) as nat);
        let c1 = up(y, (r - 1) as nat);
        lemma_up_div(y, (r - 1) as nat);
        assert(c1 == 2 * c || c1 == 2 * c + 1);
        lemma_sub_free_below(s, c1, (h - 1) as nat, y, (r - 1) as nat);
    }
}

/// A subtree that is not free holds a live node.
pub proof fn lemma_not_sub_free(s: Set<int>, c: int, h: nat) -> (y: (int, nat))
    requires
        !sub_free(s, c, h),
        0 <= c,
    ensures
        s.contains(y.0),
        y.1 <= h,
        up(y.0, y.1) == c,
        0 <= y.0,
    decreases h,
{
    if s.contains(c) {
        (c, 0)
    } else {
        let c1 = if !sub_free(s, 2 * c, (h - 1) as nat) {
            2 * c
        } else {
            2 * c + 1
        };
        let (y0, r0) = lemma_not_sub_free(s, c1, (h - 1) as nat);
        lemma_up_step(y0, r0);
        (y0, r0 + 1)
    }
}

/// The slot values are at most `h` on a node with a free block below it,
/// and in `USED .. USED + h` otherwise; only live nodes hold `USED` itself.
pub proof fn lemma_enc_range(s: Set<int>, i: int, h: nat)
    requires
        h < 127,
    ensures
        0 <= enc(s, i, h) <= h || (USED as int <= enc(s, i, h) <= USED as int + h),
        enc(s, i, h) == USED as int ==> s.contains(i),
    decreases h,
{
    if !s.contains(i) && h > 0 {
        lemma_enc_range(s, 2 * i, (h - 1) as nat);
        lemma_enc_range(s, 2 * i + 1, (h - 1) as nat);
    }
}

/// A slot is 0 exactly on a node whose whole subtree is free.
pub proof fn lemma_enc_zero(s: Set<int>, i: int, h: nat)
    requires
        h < 127,
    ensures
        enc(s, i, h) == 0 <==> sub_free(s, i, h),
    decreases h,
{
    if !s.contains(i) && h > 0 {
        lemma_enc_zero(s, 2 * i, (h - 1) as nat);
        lemma_enc_zero(s, 2 * i + 1, (h - 1) as nat);
        lemma_enc_range(s, 2 * i, (h - 1) as nat);
        lemma_enc_range(s, 2 * i + 1, (h - 1) as nat);
    }
}

/// A free block `r` levels below a node bounds that node's slot by `r`.
pub proof fn lemma_enc_up(s: Set<int>, x: int, hx: nat, t: int, r: nat)
    requires
        0 <= x,
        enc(s, x, hx) <= t,
        r > 0 ==> path_clear(s, x / 2, (r - 1) as nat),
    ensures
        enc(s, up(x, r), hx + r) <= t + r,
    decreases r,
{
    if r > 0 {
        let p = x / 2;
        assert(!s.contains(p));
        assert(x == 2 * p || x == 2 * p + 1);
        assert(enc(s, p, hx + 1) == comb(enc(s, 2 * p, hx), enc(s, 2 * p + 1, hx)));
        assert(enc(s, p, hx + 1) <= t + 1);
        if r == 1 {
            assert(up(x, 1) == up(p, 0));
        } else {
            lemma_enc_up(s, p, hx + 1, t + 1, (r - 1) as nat);
        }
    }
}

/// Adding a node outside the subtree of `x` leaves the slot of `x` unchanged.
pub proof fn lemma_enc_insert_outside(s: Set<int>, j: int, x: int, h: nat)
    requires
        0 <= j,
        forall|r: nat| r <= h ==> up(j, r) != x,
    ensures
        enc(s.insert(j), x, h) == enc(s, x, h),
    decreases h,
{
    assert(up(j, 0) != x);
    if h > 0 {
        assert forall|r: nat| r <= (h - 1) as nat implies up(j, r) != 2 * x && up(j, r) != 2 * x
            + 1 by {
            lemma_up_step(j, r);
            assert(up(j, r + 1) != x);
        }
        lemma_enc_insert_outside(s, j, 2 * x, (h - 1) as nat);
        lemma_enc_insert_outside(s, j, 2 * x + 1, (h - 1) as nat);
    }
}

/// Stepping one level up: the strict ancestors of `p` are its parent and the
/// strict ancestors of its parent.
pub proof fn lemma_ancestor_step(x: int, p: int)
    requires
        2 <= p,
    ensures
        is_ancestor(x, p) <==> (x == p / 2 || is_ancestor(x, p / 2)),
{
    assert(depth(p) == 1 + depth(p / 2));
    if x == p / 2 {
        assert(up(p, 1) == up(p / 2, 0));
    }
}

/// The slot encoding is monotone in the set of live nodes.
pub proof fn lemma_enc_monotone(s1: Set<int>, s2: Set<int>, i: int, h: nat)
    requires
        0 <= i,
        s1.subset_of(s2),
        h < 127,
        s2.contains(i) && !s1.contains(i) ==> sub_free(s1, i, h),
        forall|y: int, r: nat|
            #![trigger s2.contains(y), up(y, r)]
            s2.contains(y) && r > 0 && 0 <= y ==> !s2.contains(up(y, r)),
    ensures
        enc(s1, i, h) <= enc(s2, i, h),
    decreases h,
{
    if s2.contains(i) {
        if !s1.contains(i) {
            lemma_enc_zero(s1, i, h);
        }
    } else if h > 0 {
        assert forall|c: int|
            (c == 2 * i || c == 2 * i + 1) && s2.contains(c) && !s1.contains(c) implies sub_free(
            s1,
            c,
            (h - 1) as nat,
        ) by {
            if !sub_free(s1, c, (h - 1) as nat) {
                assert(c >= 0);
                let (y, r) = lemma_not_sub_free(s1, c, (h - 1) as nat);
                assert(s2.contains(y));
                if r > 0 {
                    assert(!s2.contains(up(y, r)));
                } else {
                    assert(up(y, 0) == y);
                }
            }
        }
        lemma_enc_monotone(s1, s2, 2 * i, (h - 1) as nat);
        lemma_enc_monotone(s1, s2, 2 * i + 1, (h - 1) as nat);
    }
}

/// A subtree free of a set is free of its subsets.
pub proof fn lemma_sub_free_subset(s1: Set<int>, s2: Set<int>, i: int, h: nat)
    requires
        sub_free(s2, i, h),
        s1.subset_of(s2),
    ensures
        sub_free(s1, i, h),
    decreases h,
{
    if h > 0 {
        lemma_sub_free_subset(s1, s2, 2 * i, (h - 1) as nat);
        lemma_sub_free_subset(s1, s2, 2 * i + 1, (h - 1) as nat);
    }
}

/// Walking up `a` steps and then `b` steps is walking up `a + b` steps.
pub proof fn lemma_up_add(i: int, a: nat, b: nat)
    requires
        0 <= i,
    ensures
        up(up(i, a), b) == up(i, a + b),
{
    lemma_up_div(i, a);
    lemma_pow2_pos(a);
    lemma_pow2_pos(b);
    lemma_up_div(up(i, a), b);
    lemma_up_div(i, a + b);
    lemma_div_denominator(i, pow2(a) as int, pow2(b) as int);
    vstd::arithmetic::power2::lemma_pow2_adds(a, b);
    assert(0 <= i / (pow2(a) as int)) by {
        vstd::arithmetic::div_mod::lemma_div_pos_is_pos(i, pow2(a) as int);
    }
}

/// Every subtree is free of the empty set.
pub proof fn lemma_sub_free_empty(i: int, h: nat)
    ensures
        sub_free(Set::<int>::empty(), i, h),
    decreases h,
{
    if h > 0 {
        lemma_sub_free_empty(2 * i, (h - 1) as nat);
        lemma_sub_free_empty(2 * i + 1, (h - 1) as nat);
    }
}

/// Every path is clear of the empty set.
pub proof fn lemma_path_clear_empty(i: int, r: nat)
    ensures
        path_clear(Set::<int>::empty(), i, r),
    decreases r,
{
    if r > 0 {
        lemma_path_clear_empty(i / 2, (r - 1) as nat);
    }
}

/// An ancestor of an ancestor is an ancestor.
pub proof fn lemma_ancestor_trans(a: int, b: int, c: int)
    requires
        1 <= c,
        is_ancestor(a, b),
        is_ancestor(b, c),
    ensures
        is_ancestor(a, c),
{
    lemma_up_add(c, (depth(c) - depth(b)) as nat, (depth(b) - depth(a)) as nat);
}

/// Of two nodes on the path from `c` to the root, the shallower lies above
/// the deeper.
pub proof fn lemma_ancestors_ordered(x: int, i: int, c: int)
    requires
        1 <= c,
        is_ancestor(x, c),
        i == c || is_ancestor(i, c),
        depth(x) < depth(i),
    ensures
        is_ancestor(x, i),
{
    if i != c {
        lemma_up_add(c, (depth(c) - depth(i)) as nat, (depth(i) - depth(x)) as nat);
    }
}

} // verus!
