//! The structural guarantees of a well-formed tree, stated on their own:
//! every aggregate is internally consistent, internal nodes combine their
//! children exactly, and a block answers a search query precisely when one
//! of its positions carries the sought excess.

use vstd::prelude::*;
use crate::excess::total_of;
use crate::excess::block;
use crate::excess::seg;
use crate::excess::n_blocks;
use crate::excess::lemma_agg_bounds;
use crate::excess::lemma_attains;
use crate::excess::lemma_prefix_in_range;
use crate::excess::lemma_total_concat;
use crate::excess::lemma_minmax_concat;
use crate::excess::lemma_seg_split;
use crate::excess::lemma_block_nonempty;
use crate::search::fwd_match;
use crate::search::bwd_match;
use crate::shape::depth;
use crate::tree::MinMaxTree;

verus! {

impl MinMaxTree {
    /// Every aggregate of a well-formed tree satisfies
    /// `min <= total <= max`: the full range is itself one of the evaluated
    /// prefixes.
    pub proof fn lemma_aggregate_consistent(self, k: int)
        requires
            self.wf(),
            0 <= k < self.nodes@.len(),
        ensures
            self.nodes@[k].min <= self.nodes@[k].total <= self.nodes@[k].max,
    {
        assert(self.node_ok(k));
        if self.realized(k) {
            lemma_agg_bounds(self.node_seg(k));
        }
    }

    /// Every internal node with two in-bounds children combines them
    /// exactly: the total adds, and each extreme is the better of the left
    /// extreme and the left total plus the right extreme.
    pub proof fn lemma_combine_exact(self, k: int)
        requires
            self.wf(),
            self.m() > 0,
            0 <= k,
            2 * k + 2 < self.nodes@.len(),
        ensures
            self.nodes@[k].total == self.nodes@[2 * k + 1].total + self.nodes@[2 * k + 2].total,
            self.nodes@[k].min == vstd::math::min(
                self.nodes@[2 * k + 1].min as int,
                self.nodes@[2 * k + 1].total + self.nodes@[2 * k + 2].min,
            ),
            self.nodes@[k].max == vstd::math::max(
                self.nodes@[2 * k + 1].max as int,
                self.nodes@[2 * k + 1].total + self.nodes@[2 * k + 2].max,
            ),
    {
        let l = 2 * k + 1;
        let r = 2 * k + 2;
        self.lemma_shape();
        self.lemma_cover_basics(k);
        self.lemma_cover_basics(l);
        self.lemma_internal_iff(k);
        assert(depth(k as nat) < self.ht()) by {
            crate::shape::lemma_depth_child(k as nat);
        }
        self.lemma_child_cover(k);
        assert(self.node_ok(k));
        assert(self.node_ok(l));
        assert(self.node_ok(r));
        let mid = self.blo(r);
        if self.realized(k) {
            if self.realized(r) {
                assert(self.bhi(l) == mid);
                assert(self.bhi(r) == self.bhi(k));
                lemma_seg_split(self.bits@, self.bs(), self.blo(k), mid, self.bhi(k));
                assert(self.node_seg(k) == self.node_seg(l) + self.node_seg(r));
                lemma_total_concat(self.node_seg(l), self.node_seg(r));
                lemma_minmax_concat(self.node_seg(l), self.node_seg(r));
            } else {
                assert(self.bhi(l) == self.nb());
                assert(self.bhi(k) == self.nb());
                assert(self.node_seg(k) == self.node_seg(l));
                lemma_agg_bounds(self.node_seg(l));
            }
        } else {
            assert(!self.realized(l));
            assert(!self.realized(r));
        }
    }

    /// Every internal node whose right child slot lies past the array is a
    /// verbatim copy of its sole left child.
    pub proof fn lemma_single_child_copy(self, k: int)
        requires
            self.wf(),
            self.m() > 0,
            0 <= k,
            2 * k + 1 < self.nodes@.len(),
            2 * k + 2 >= self.nodes@.len(),
        ensures
            self.nodes@[k].total == self.nodes@[2 * k + 1].total,
            self.nodes@[k].min == self.nodes@[2 * k + 1].min,
            self.nodes@[k].max == self.nodes@[2 * k + 1].max,
    {
        let l = 2 * k + 1;
        let r = 2 * k + 2;
        self.lemma_shape();
        self.lemma_cover_basics(k);
        self.lemma_cover_basics(l);
        self.lemma_internal_iff(k);
        assert(depth(k as nat) < self.ht()) by {
            crate::shape::lemma_depth_child(k as nat);
        }
        self.lemma_child_cover(k);
        assert(self.node_ok(k));
        assert(self.node_ok(l));
        assert(depth(r as nat) <= self.ht());
        assert((r + 1) * self.span(r) >= r + 1) by (nonlinear_arith)
            requires
                self.span(r) >= 1,
                r + 1 >= 1,
        ;
        assert(self.blo(r) >= r - self.ic() >= self.nb());
        if self.realized(k) {
            assert(self.bhi(l) == self.nb());
            assert(self.bhi(k) == self.nb());
            assert(self.node_seg(k) == self.node_seg(l));
        } else {
            assert(!self.realized(l));
        }
    }
}

/// Agreement of the forward block test with a brute-force scan: a block
/// answers a forward query exactly when some position strictly inside it
/// carries the sought excess, measured from the reference boundary.
pub proof fn lemma_fwd_match_iff_position(bits: Seq<bool>, bs: nat, e: int, c: int, x: int)
    requires
        bs >= 1,
        0 <= e <= c < n_blocks(bits.len(), bs),
    ensures
        fwd_match(bits, bs, e, c, x) <==> exists|j: int|
            1 <= j <= block(bits, bs, c).len() && total_of(seg(bits, bs, e, c)) + total_of(
                #[trigger] block(bits, bs, c).take(j),
            ) == x,
{
    let blk = block(bits, bs, c);
    let y = x - total_of(seg(bits, bs, e, c));
    lemma_block_nonempty(bits, bs, c);
    if fwd_match(bits, bs, e, c, x) {
        lemma_attains(blk, y);
    }
    if exists|j: int|
        1 <= j <= blk.len() && total_of(seg(bits, bs, e, c)) + total_of(
            #[trigger] blk.take(j),
        ) == x {
        let j = choose|j: int|
            1 <= j <= blk.len() && total_of(seg(bits, bs, e, c)) + total_of(
                #[trigger] blk.take(j),
            ) == x;
        lemma_prefix_in_range(blk, j);
    }
}

/// Agreement of the backward block test with a brute-force scan: a block
/// answers a backward query exactly when some position of it, its left
/// edge included, carries the sought excess, measured from the reference
/// boundary.
pub proof fn lemma_bwd_match_iff_position(bits: Seq<bool>, bs: nat, b0: int, c: int, x: int)
    requires
        bs >= 1,
        0 <= c < b0 <= n_blocks(bits.len(), bs),
    ensures
        bwd_match(bits, bs, b0, c, x) <==> exists|j: int|
            0 <= j <= block(bits, bs, c).len() && total_of(#[trigger] block(bits, bs, c).take(j))
                == x + total_of(seg(bits, bs, c, b0)),
{
    let blk = block(bits, bs, c);
    let z = x + total_of(seg(bits, bs, c, b0));
    lemma_block_nonempty(bits, bs, c);
    if bwd_match(bits, bs, b0, c, x) {
        if z == 0 {
            assert(blk.take(0) =~= Seq::<bool>::empty());
            assert(total_of(blk.take(0)) == z);
        } else {
            lemma_attains(blk, z);
        }
    }
    if exists|j: int| 0 <= j <= blk.len() && total_of(#[trigger] blk.take(j)) == z {
        let j = choose|j: int| 0 <= j <= blk.len() && total_of(#[trigger] blk.take(j)) == z;
        if j == 0 {
            assert(blk.take(0) =~= Seq::<bool>::empty());
        } else {
            lemma_prefix_in_range(blk, j);
        }
    }
}

} // verus!
