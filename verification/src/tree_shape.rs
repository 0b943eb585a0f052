//! Geometry of a complete binary tree stored in an array.
//!
//! A tree with `k` leaves (`k` a power of two) is addressed by positions
//! `1..2k`: position 1 is the root, position `p < k` has the children `2p`
//! and `2p + 1`, and position `k + j` is leaf `j`. Every position covers a
//! contiguous run of leaves, described here by its first leaf and its width.

use vstd::prelude::*;

verus! {

/// `k` is reached from `p` by doubling zero or more times. From 1, the
/// powers of two are reached.
pub open spec fn doubles_to(p: int, k: int) -> bool
    decreases 2 * k - p,
{
    p == k || (0 < p < k && doubles_to(2 * p, k))
}

/// Number of leaves of a tree over `n` inputs: the least power of two that
/// is no less than `n`, and 1 where there is no input.
pub open spec fn leaves_for(n: nat) -> nat
    decreases n,
{
    if n <= 1 {
        1
    } else {
        2 * leaves_for((n + 1) / 2)
    }
}

/// A power of two that holds `n` inputs and is less than twice `n` is the
/// number of leaves for `n` inputs; so is 1 for at most one input.
pub proof fn lemma_leaves_for(n: nat, k: int)
    requires
        doubles_to(1, k),
        n <= k,
        n <= 1 ==> k == 1,
        n > 1 ==> k < 2 * n,
    ensures
        k == leaves_for(n),
    decreases n,
{
    if n > 1 {
        lemma_level_above(k, k);
        lemma_leaves_for((n + 1) / 2, k / 2);
    }
}

/// Number of levels above the leaves of a tree with `k` leaves: how often
/// `k` can be halved before 1 is reached.
pub open spec fn height(k: int) -> nat
    decreases k,
{
    if k <= 1 {
        0
    } else {
        1 + height(k / 2)
    }
}

/// Number of leaves below position `p` in a tree with `k` leaves.
pub open spec fn width(k: int, p: int) -> int
    decreases 2 * k - p,
{
    if p <= 0 || p >= k {
        1
    } else {
        2 * width(k, 2 * p)
    }
}

/// Index of the leftmost leaf below position `p` in a tree with `k` leaves.
pub open spec fn first_leaf(k: int, p: int) -> int
    decreases 2 * k - p,
{
    if p <= 0 || p >= k {
        p - k
    } else {
        first_leaf(k, 2 * p)
    }
}

/// All positions of one level have the same width, and their runs of leaves
/// follow one another from left to right.
pub proof fn lemma_level(k: int, level: int, p: int)
    requires
        doubles_to(level, k),
        level <= p < 2 * level,
    ensures
        width(k, p) >= 1,
        width(k, p) * level == k,
        first_leaf(k, p) == (p - level) * width(k, p),
        0 <= first_leaf(k, p),
        first_leaf(k, p) + width(k, p) <= k,
    decreases 2 * k - level,
{
    if level == k {
    } else {
        lemma_level(k, 2 * level, 2 * p);
        let w = width(k, 2 * p);
        assert((2 * w) * level == w * (2 * level)) by (nonlinear_arith);
        assert((2 * p - 2 * level) * w == (p - level) * (2 * w)) by (nonlinear_arith);
    }
    let w = width(k, p);
    assert(0 <= (p - level) * w && (p - level) * w + w <= w * level) by (nonlinear_arith)
        requires
            w >= 1,
            level <= p < 2 * level,
    ;
}

/// Two positions of one level cover no leaf in common.
pub proof fn lemma_one_cover(k: int, level: int, p: int, q: int, leaf: int)
    requires
        doubles_to(level, k),
        level <= p < 2 * level,
        level <= q < 2 * level,
        first_leaf(k, p) <= leaf < first_leaf(k, p) + width(k, p),
        first_leaf(k, q) <= leaf < first_leaf(k, q) + width(k, q),
    ensures
        p == q,
{
    lemma_level(k, level, p);
    lemma_level(k, level, q);
    let w = width(k, p);
    let v = width(k, q);
    assert(w == v) by (nonlinear_arith)
        requires
            w * level == k,
            v * level == k,
            level > 0,
    ;
    if p < q {
        assert((p - level) * w + w <= (q - level) * w) by (nonlinear_arith)
            requires
                p < q,
                w >= 1,
        ;
    } else if q < p {
        assert((q - level) * w + w <= (p - level) * w) by (nonlinear_arith)
            requires
                q < p,
                w >= 1,
        ;
    }
}

/// The two children of an inner position split its run of leaves in halves.
pub proof fn lemma_children(k: int, level: int, p: int)
    requires
        doubles_to(level, k),
        level <= p < 2 * level,
        p < k,
    ensures
        doubles_to(2 * level, k),
        width(k, 2 * p) >= 1,
        width(k, 2 * p + 1) == width(k, 2 * p),
        width(k, p) == 2 * width(k, 2 * p),
        first_leaf(k, 2 * p) == first_leaf(k, p),
        first_leaf(k, 2 * p + 1) == first_leaf(k, p) + width(k, 2 * p),
{
    lemma_level(k, 2 * level, 2 * p);
    lemma_level(k, 2 * level, 2 * p + 1);
    let a = width(k, 2 * p);
    let b = width(k, 2 * p + 1);
    assert(a == b) by (nonlinear_arith)
        requires
            a * (2 * level) == k,
            b * (2 * level) == k,
            level > 0,
    ;
    assert((2 * p + 1 - 2 * level) * a == (2 * p - 2 * level) * a + a) by (nonlinear_arith);
}

/// What doubles to `k` doubles to `2k` as well.
pub proof fn lemma_double_more(p: int, k: int)
    requires
        doubles_to(p, k),
        0 < k,
    ensures
        doubles_to(p, 2 * k),
        0 < p <= k,
    decreases 2 * k - p,
{
    if p == k {
        assert(doubles_to(2 * k, 2 * k));
    } else {
        lemma_double_more(2 * p, k);
    }
}

/// The root covers every leaf.
pub proof fn lemma_root(k: int)
    requires
        doubles_to(1, k),
    ensures
        width(k, 1) == k,
        first_leaf(k, 1) == 0,
{
    lemma_level(k, 1, 1);
}

/// The level above one that is not the root.
pub proof fn lemma_level_above(k: int, level: int)
    requires
        doubles_to(1, k),
        doubles_to(level, k),
        level > 1,
    ensures
        level % 2 == 0,
        doubles_to(level / 2, k),
        doubles_to(1, level / 2),
{
    lemma_levels_nest(1, level, k);
}

/// Of two levels of one tree, the smaller doubles to the larger.
pub proof fn lemma_levels_nest(a: int, b: int, k: int)
    requires
        doubles_to(a, k),
        doubles_to(b, k),
        0 < a < b,
    ensures
        b % 2 == 0,
        2 * a <= b,
        doubles_to(a, b / 2),
        doubles_to(b / 2, k),
    decreases 2 * k - a,
{
    assert(b <= k);
    assert(doubles_to(2 * a, k));
    assert(2 * a <= k);
    if b < k {
        assert(doubles_to(2 * b, k));
        lemma_levels_nest(2 * a, 2 * b, k);
    }
    if 2 * a < b {
        lemma_levels_nest(2 * a, b, k);
    }
}

} // verus!
