//! What the two search operations answer, stated over the block
//! decomposition: which block holds a position with the requested relative
//! excess, and how skipping a whole subtree is justified by its aggregate.

use vstd::prelude::*;
use crate::excess::total_of;
use crate::excess::min_of;
use crate::excess::max_of;
use crate::excess::n_blocks;
use crate::excess::seg;
use crate::excess::block;
use crate::excess::lemma_total_concat;
use crate::excess::lemma_minmax_concat;
use crate::excess::lemma_agg_bounds;
use crate::excess::lemma_first_step;
use crate::excess::lemma_pad_left;
use crate::excess::lemma_pad_right;
use crate::excess::lemma_seg_split;
use crate::excess::lemma_block_nonempty;
use crate::excess::lemma_seg_nonempty;
use crate::excess::lemma_prefix_in_range;
use crate::tree::MinMaxTree;

verus! {

/// Forward query: `x` is measured from the boundary at the start of block
/// `e`; block `c` answers it when the excess `x`, re-based to the start of
/// `c`, falls within `c`'s recorded extremes.
pub open spec fn fwd_match(bits: Seq<bool>, bs: nat, e: int, c: int, x: int) -> bool
    recommends
        bs >= 1,
        0 <= e <= c < n_blocks(bits.len(), bs),
{
    let y = x - total_of(seg(bits, bs, e, c));
    min_of(block(bits, bs, c)) <= y <= max_of(block(bits, bs, c))
}

/// Backward query: `x` is measured from the boundary at the start of block
/// `b0`; block `c` answers it when the excess `x`, re-based to the start of
/// `c`, either falls within `c`'s recorded extremes or is exactly zero (the
/// boundary excess at a block's left edge is always attainable).
pub open spec fn bwd_match(bits: Seq<bool>, bs: nat, b0: int, c: int, x: int) -> bool
    recommends
        bs >= 1,
        0 <= c < b0 <= n_blocks(bits.len(), bs),
{
    let z = x + total_of(seg(bits, bs, c, b0));
    z == 0 || (min_of(block(bits, bs, c)) <= z <= max_of(block(bits, bs, c)))
}

/// Moving the forward reference boundary right across a skipped range
/// re-bases the sought excess by that range's total.
pub proof fn lemma_fwd_shift(bits: Seq<bool>, bs: nat, e: int, e2: int, c: int, x: int)
    requires
        bs >= 1,
        0 <= e <= e2 <= c,
    ensures
        fwd_match(bits, bs, e, c, x) == fwd_match(bits, bs, e2, c, x - total_of(seg(bits, bs, e, e2))),
        total_of(seg(bits, bs, e, c)) == total_of(seg(bits, bs, e, e2)) + total_of(
            seg(bits, bs, e2, c),
        ),
{
    lemma_seg_split(bits, bs, e, e2, c);
    lemma_total_concat(seg(bits, bs, e, e2), seg(bits, bs, e2, c));
}

/// Moving the backward reference boundary left across a skipped range
/// re-bases the sought excess by that range's total.
pub proof fn lemma_bwd_shift(bits: Seq<bool>, bs: nat, b2: int, b0: int, c: int, x: int)
    requires
        bs >= 1,
        0 <= c + 1 <= b2 <= b0,
        0 <= c,
    ensures
        bwd_match(bits, bs, b0, c, x) == bwd_match(
            bits,
            bs,
            b2,
            c,
            x + total_of(seg(bits, bs, b2, b0)),
        ),
        total_of(seg(bits, bs, c, b0)) == total_of(seg(bits, bs, c, b2)) + total_of(
            seg(bits, bs, b2, b0),
        ),
        total_of(seg(bits, bs, c + 1, b0)) == total_of(seg(bits, bs, c + 1, b2)) + total_of(
            seg(bits, bs, b2, b0),
        ),
{
    lemma_seg_split(bits, bs, c, b2, b0);
    lemma_total_concat(seg(bits, bs, c, b2), seg(bits, bs, b2, b0));
    lemma_seg_split(bits, bs, c + 1, b2, b0);
    lemma_total_concat(seg(bits, bs, c + 1, b2), seg(bits, bs, b2, b0));
}

/// A forward answer inside blocks `[e, j)` forces the whole range's
/// aggregate to bracket the sought excess; contrapositively, a range whose
/// aggregate excludes `x` holds no answer and may be skipped whole.
pub proof fn lemma_fwd_match_in_seg(bits: Seq<bool>, bs: nat, e: int, c: int, j: int, x: int)
    requires
        bs >= 1,
        0 <= e <= c < j,
        j <= n_blocks(bits.len(), bs),
        fwd_match(bits, bs, e, c, x),
    ensures
        min_of(seg(bits, bs, e, j)) <= x <= max_of(seg(bits, bs, e, j)),
{
    let a = seg(bits, bs, e, c);
    let b = block(bits, bs, c);
    let d = seg(bits, bs, c + 1, j);
    lemma_block_nonempty(bits, bs, c);
    lemma_seg_split(bits, bs, e, c, c + 1);
    lemma_seg_split(bits, bs, e, c + 1, j);
    assert(seg(bits, bs, e, j) =~= (a + b) + d);
    lemma_pad_left(a, b);
    lemma_pad_right(a + b, d);
    assert(min_of(a + b) <= total_of(a) + min_of(b));
    assert(total_of(a) + max_of(b) <= max_of(a + b));
}

/// A backward answer inside blocks `[a, b0)` forces the whole range's
/// aggregate to bracket the re-based excess or the excess to vanish at the
/// range's left edge; contrapositively such a range may be skipped whole.
pub proof fn lemma_bwd_match_in_seg(bits: Seq<bool>, bs: nat, a: int, c: int, b0: int, x: int)
    requires
        bs >= 1,
        0 <= a <= c < b0,
        b0 <= n_blocks(bits.len(), bs),
        bwd_match(bits, bs, b0, c, x),
    ensures
        x + total_of(seg(bits, bs, a, b0)) == 0 || (min_of(seg(bits, bs, a, b0)) <= x + total_of(
            seg(bits, bs, a, b0),
        ) <= max_of(seg(bits, bs, a, b0))),
{
    let z = x + total_of(seg(bits, bs, c, b0));
    let zz = x + total_of(seg(bits, bs, a, b0));
    let pre = seg(bits, bs, a, c);
    let blk = block(bits, bs, c);
    let suf = seg(bits, bs, c + 1, b0);
    lemma_block_nonempty(bits, bs, c);
    lemma_seg_split(bits, bs, a, c, b0);
    lemma_total_concat(pre, seg(bits, bs, c, b0));
    assert(zz == z + total_of(pre));
    lemma_seg_split(bits, bs, a, c, c + 1);
    lemma_seg_split(bits, bs, a, c + 1, b0);
    assert(seg(bits, bs, a, b0) =~= (pre + blk) + suf);
    if z == 0 {
        if c == a {
            assert(pre.len() == 0);
            assert(total_of(pre) == 0);
            assert(zz == 0);
        } else {
            // `zz` is the excess of a non-empty prefix of the range ending
            // at the left edge of block `c`
            lemma_seg_nonempty(bits, bs, a, c);
            lemma_pad_right(pre, blk + suf);
            assert(pre + (blk + suf) =~= (pre + blk) + suf);
            lemma_agg_bounds(pre);
            assert(min_of(seg(bits, bs, a, b0)) <= min_of(pre) <= total_of(pre));
            lemma_pad_left(pre, blk + suf);
            lemma_first_step(blk + suf);
            lemma_seg_split(bits, bs, c, c + 1, b0);
            assert(blk + suf =~= seg(bits, bs, c, b0));
            lemma_agg_bounds(blk + suf);
            assert(total_of(pre) <= total_of(pre) + max_of(blk + suf) + 1);
            // the prefix total itself lies within the range's extremes
            lemma_prefix_in_range(seg(bits, bs, a, b0), pre.len() as int);
            assert(seg(bits, bs, a, b0).take(pre.len() as int) =~= pre);
        }
    } else {
        // z re-based to the start of block c lies within that block's
        // extremes, hence within the whole range's
        lemma_pad_left(pre, blk);
        lemma_pad_right(pre + blk, suf);
        assert(min_of((pre + blk) + suf) <= min_of(pre + blk));
        assert(min_of(pre + blk) <= total_of(pre) + min_of(blk));
        assert(zz == total_of(pre) + z);
    }
}

/// The step of the forward descent: when a combined range brackets the
/// sought excess but its left part does not, the right part, re-based by
/// the left total, must bracket it.
pub proof fn lemma_walk_transfer_fwd(a: Seq<bool>, b: Seq<bool>, x: int)
    requires
        a.len() > 0,
        b.len() > 0,
        min_of(a + b) <= x <= max_of(a + b),
        !(min_of(a) <= x <= max_of(a)),
    ensures
        min_of(b) <= x - total_of(a) <= max_of(b),
{
    lemma_minmax_concat(a, b);
    lemma_agg_bounds(a);
    lemma_agg_bounds(b);
    lemma_first_step(b);
    if x < min_of(a) {
        assert(total_of(a) + min_of(b) <= x);
        if x - total_of(a) > max_of(b) {
            assert(x > total_of(a) + max_of(b) >= total_of(a) - 1);
            assert(x >= total_of(a) >= min_of(a));
            assert(false);
        }
    } else {
        assert(x > max_of(a));
        assert(x <= total_of(a) + max_of(b));
        if x - total_of(a) < min_of(b) {
            assert(x < total_of(a) + min_of(b) <= total_of(a) + 1);
            assert(x <= total_of(a) <= max_of(a));
            assert(false);
        }
    }
}

/// The step of the backward descent: when a combined range admits the
/// sought excess but its right part does not, the left part, re-based by
/// the right total, must admit it.
pub proof fn lemma_walk_transfer_bwd(a: Seq<bool>, b: Seq<bool>, x: int)
    requires
        a.len() > 0,
        b.len() > 0,
        // x is measured from the right end of `a + b`; z re-bases it to the
        // left end
        ({
            let z = x + total_of(a + b);
            z == 0 || (min_of(a + b) <= z <= max_of(a + b))
        }),
        !({
            let zb = x + total_of(b);
            zb == 0 || (min_of(b) <= zb <= max_of(b))
        }),
    ensures
        ({
            let z = x + total_of(a + b);
            z == 0 || (min_of(a) <= z <= max_of(a))
        }),
{
    lemma_total_concat(a, b);
    lemma_minmax_concat(a, b);
    lemma_agg_bounds(a);
    lemma_agg_bounds(b);
    lemma_first_step(a);
    lemma_first_step(b);
    let z = x + total_of(a) + total_of(b);
    let zb = x + total_of(b);
    if z != 0 {
        assert(zb == z - total_of(a));
        if z < min_of(a) {
            assert(min_of(a + b) <= z);
            assert(total_of(a) + min_of(b) <= z);
            assert(min_of(b) <= zb);
            if zb > max_of(b) {
                assert(z > total_of(a) + max_of(b) >= total_of(a) - 1);
                assert(z >= total_of(a) >= min_of(a));
                assert(false);
            }
            assert(false);
        }
        if z > max_of(a) {
            assert(z <= max_of(a + b));
            assert(z <= total_of(a) + max_of(b));
            assert(zb <= max_of(b));
            if zb < min_of(b) {
                assert(z < total_of(a) + min_of(b) <= total_of(a) + 1);
                assert(z <= total_of(a) <= max_of(a));
                assert(false);
            }
            assert(false);
        }
    }
}

impl MinMaxTree {
    /// Forward query against this tree's sequence and block size.
    pub open spec fn fwd_match_at(self, e: int, c: int, x: int) -> bool {
        fwd_match(self.bits@, self.bs(), e, c, x)
    }

    /// Backward query against this tree's sequence and block size.
    pub open spec fn bwd_match_at(self, b0: int, c: int, x: int) -> bool {
        bwd_match(self.bits@, self.bs(), b0, c, x)
    }

    /// Every re-basing of `x` across blocks of `[lo, hi]` measured from
    /// boundary `lo` stays within the machine integer range.
    pub open spec fn fwd_fits_range(self, lo: int, hi: int, x: int) -> bool {
        forall|c: int|
            lo <= c <= hi ==> i64::MIN <= x - total_of(#[trigger] self.tseg(lo, c)) <= i64::MAX
    }

    /// Every re-basing of `x` across blocks of `[lo, b0]` measured from
    /// boundary `b0` stays within the machine integer range.
    pub open spec fn bwd_fits_range(self, lo: int, b0: int, x: int) -> bool {
        forall|c: int|
            lo <= c <= b0 ==> i64::MIN <= x + total_of(#[trigger] self.tseg(c, b0)) <= i64::MAX
    }
}

} // verus!
