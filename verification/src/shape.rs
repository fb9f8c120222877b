//! Index arithmetic for the array-encoded complete binary tree: powers of
//! two, the ceiling logarithm that sizes the internal region, and the depth
//! of a node index.

use vstd::prelude::*;
use vstd::arithmetic::power2::pow2;
use vstd::arithmetic::power2::lemma_pow2_unfold;
use vstd::arithmetic::power2::lemma_pow2_pos;
use vstd::arithmetic::power2::lemma_pow2_strictly_increases;
use vstd::arithmetic::power2::lemma_pow2_adds;

verus! {

/// Least exponent `e` with `pow2(e) >= n`.
pub open spec fn clog2(n: nat) -> nat
    decreases n,
{
    if n <= 1 {
        0
    } else {
        clog2(((n + 1) / 2) as nat) + 1
    }
}

/// `pow2(clog2(n))` is the least power of two at or above `n`.
pub proof fn lemma_clog2(n: nat)
    requires
        n >= 1,
    ensures
        n <= pow2(clog2(n)),
        pow2(clog2(n)) < 2 * n,
    decreases n,
{
    if n == 1 {
        assert(pow2(0) == 1) by {
            vstd::arithmetic::power2::lemma2_to64();
        }
    } else {
        let h = ((n + 1) / 2) as nat;
        lemma_clog2(h);
        lemma_pow2_unfold(clog2(h) + 1);
        if n % 2 == 1 {
            // `n` odd and at least 3 cannot itself be `pow2(clog2(h))`,
            // which is even unless it is 1.
            if pow2(clog2(h)) == n {
                if clog2(h) >= 1 {
                    lemma_pow2_unfold(clog2(h));
                }
            }
        }
    }
}

/// Two powers of two within a factor of two of each other are equal.
pub proof fn lemma_pow2_unique(a: nat, b: nat)
    requires
        pow2(a) < 2 * pow2(b),
        pow2(b) < 2 * pow2(a),
    ensures
        a == b,
{
    if a < b {
        lemma_pow2_adds(a, (b - a) as nat);
        lemma_pow2_pos((b - a) as nat);
        if b - a >= 1 {
            lemma_pow2_strictly_increases(0, (b - a) as nat);
            assert(pow2(0) == 1) by {
                vstd::arithmetic::power2::lemma2_to64();
            }
            assert(pow2(b) == pow2(a) * pow2((b - a) as nat));
            assert(pow2(a) * pow2((b - a) as nat) >= pow2(a) * 2) by (nonlinear_arith)
                requires
                    pow2((b - a) as nat) >= 2,
                    pow2(a) >= 1,
            ;
            lemma_pow2_pos(a);
        }
    } else if b < a {
        lemma_pow2_adds(b, (a - b) as nat);
        lemma_pow2_pos((a - b) as nat);
        if a - b >= 1 {
            lemma_pow2_strictly_increases(0, (a - b) as nat);
            assert(pow2(0) == 1) by {
                vstd::arithmetic::power2::lemma2_to64();
            }
            assert(pow2(a) == pow2(b) * pow2((a - b) as nat));
            assert(pow2(b) * pow2((a - b) as nat) >= pow2(b) * 2) by (nonlinear_arith)
                requires
                    pow2((a - b) as nat) >= 2,
                    pow2(b) >= 1,
            ;
            lemma_pow2_pos(b);
        }
    }
}

/// Depth of a node index in the array-encoded binary tree; the root has
/// depth 0 and index 0, and the children of `k` are `2k + 1` and `2k + 2`.
pub open spec fn depth(k: nat) -> nat
    decreases k,
{
    if k == 0 {
        0
    } else {
        depth((((k - 1) as int) / 2) as nat) + 1
    }
}

/// The indices at depth `d` are exactly `[pow2(d) - 1, pow2(d + 1) - 1)`.
pub proof fn lemma_depth_range(k: nat)
    ensures
        pow2(depth(k)) - 1 <= k < pow2(depth(k) + 1) - 1,
    decreases k,
{
    if k == 0 {
        assert(pow2(0) == 1) by {
            vstd::arithmetic::power2::lemma2_to64();
        }
        lemma_pow2_unfold(1);
    } else {
        let p = (((k - 1) as int) / 2) as nat;
        lemma_depth_range(p);
        lemma_pow2_unfold(depth(p) + 1);
        lemma_pow2_unfold(depth(p) + 2);
        assert(k == 2 * p + 1 || k == 2 * p + 2);
    }
}

/// Converse: an index inside the depth-`d` interval has depth `d`.
pub proof fn lemma_depth_of_range(k: nat, d: nat)
    requires
        pow2(d) - 1 <= k < pow2(d + 1) - 1,
    ensures
        depth(k) == d,
{
    lemma_depth_range(k);
    if depth(k) < d {
        lemma_pow2_strictly_increases(depth(k) + 1, d + 1);
        if depth(k) + 1 < d {
            lemma_pow2_strictly_increases(depth(k) + 1, d);
        }
        assert(pow2(depth(k) + 1) <= pow2(d));
    } else if depth(k) > d {
        if d + 1 < depth(k) {
            lemma_pow2_strictly_increases(d + 1, depth(k));
        }
        assert(pow2(d + 1) <= pow2(depth(k)));
    }
}

/// The children of `k` sit one level deeper.
pub proof fn lemma_depth_child(k: nat)
    ensures
        depth((2 * k + 1) as nat) == depth(k) + 1,
        depth((2 * k + 2) as nat) == depth(k) + 1,
{
    assert((((2 * k + 1) - 1) as int) / 2 == k as int);
    assert((((2 * k + 2) - 1) as int) / 2 == k as int);
}

/// A child index recovers its parent: odd indices are left children.
pub proof fn lemma_parent_of(v: nat)
    requires
        v >= 1,
    ensures
        v % 2 == 1 ==> v == 2 * ((((v - 1) as int) / 2) as nat) + 1,
        v % 2 == 0 ==> v == 2 * ((((v - 1) as int) / 2) as nat) + 2,
        depth(v) == depth((((v - 1) as int) / 2) as nat) + 1,
{
}

} // verus!
