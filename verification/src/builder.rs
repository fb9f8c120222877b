//! Construction of the index: one left-to-right scan emits a leaf aggregate
//! per block, then the internal levels are combined bottom-up.

use vstd::prelude::*;
use vstd::arithmetic::power2::pow2;
use crate::bitvec::BitVec;
use crate::excess::total_of;
use crate::excess::min_of;
use crate::excess::max_of;
use crate::excess::n_blocks;
use crate::excess::block;
use crate::excess::lemma_n_blocks;
use crate::excess::lemma_n_blocks_le;
use crate::excess::lemma_block_nonempty;
use crate::excess::lemma_seg_split;
use crate::excess::lemma_total_bound;
use crate::excess::lemma_total_concat;
use crate::excess::lemma_minmax_concat;
use crate::excess::lemma_agg_bounds;
use crate::excess::lemma_take_step;
use crate::shape::clog2;
use crate::shape::depth;
use crate::shape::lemma_clog2;
use crate::tree::ExcessNode;
use crate::tree::MinMaxTree;
use crate::tree::agg_matches;
use crate::tree::next_pow2;

verus! {

impl MinMaxTree {
    /// The sums the bottom-up combination computes stay within the symbol
    /// count, so they fit the aggregate's machine integers.
    proof fn lemma_combine(self, j: int)
        requires
            self.bs() >= 1,
            3 * self.m() <= usize::MAX as nat,
            self.m() > 0,
            self.nodes@.len() == self.size(),
            0 <= j < self.ic(),
            2 * j + 2 < self.size(),
            self.node_ok(2 * j + 1),
            self.node_ok(2 * j + 2),
        ensures
            -(self.m() as int) <= self.nodes@[2 * j + 1].total + self.nodes@[2 * j + 2].total
                <= self.m() as int,
            -(self.m() as int) <= self.nodes@[2 * j + 1].total + self.nodes@[2 * j + 2].min
                <= self.m() as int,
            -(self.m() as int) <= self.nodes@[2 * j + 1].total + self.nodes@[2 * j + 2].max
                <= self.m() as int,
    {
        let l = 2 * j + 1;
        let r = 2 * j + 2;
        self.lemma_shape();
        self.lemma_cover_basics(j);
        self.lemma_child_cover(j);
        if self.realized(l) {
            lemma_total_bound(self.node_seg(l));
            lemma_agg_bounds(self.node_seg(l));
            self.lemma_cover_basics(l);
            crate::excess::lemma_seg_len(self.bits@, self.bs(), self.blo(l), self.bhi(l));
        }
        if self.realized(r) {
            lemma_total_bound(self.node_seg(r));
            lemma_agg_bounds(self.node_seg(r));
            self.lemma_cover_basics(r);
            // the two children cover adjacent ranges whose union is the
            // parent's range
            assert(self.bhi(l) == self.blo(r));
            assert(self.bhi(r) == self.bhi(j));
            lemma_seg_split(self.bits@, self.bs(), self.blo(j), self.blo(r), self.bhi(j));
            assert(self.node_seg(j) == self.node_seg(l) + self.node_seg(r));
            crate::excess::lemma_seg_len(self.bits@, self.bs(), self.blo(j), self.bhi(j));
        }
    }

    /// After writing the combined aggregate of both children into slot `j`,
    /// slot `j` records the aggregate of its covered range.
    proof fn lemma_combine_after(self, j: int)
        requires
            self.bs() >= 1,
            3 * self.m() <= usize::MAX as nat,
            self.m() > 0,
            self.nodes@.len() == self.size(),
            0 <= j < self.ic(),
            2 * j + 2 < self.size(),
            self.node_ok(2 * j + 1),
            self.node_ok(2 * j + 2),
            self.nodes@[j].total == self.nodes@[2 * j + 1].total + self.nodes@[2 * j + 2].total,
            self.nodes@[j].min == vstd::math::min(
                self.nodes@[2 * j + 1].min as int,
                self.nodes@[2 * j + 1].total + self.nodes@[2 * j + 2].min,
            ),
            self.nodes@[j].max == vstd::math::max(
                self.nodes@[2 * j + 1].max as int,
                self.nodes@[2 * j + 1].total + self.nodes@[2 * j + 2].max,
            ),
        ensures
            self.node_ok(j),
    {
        let l = 2 * j + 1;
        let r = 2 * j + 2;
        self.lemma_shape();
        self.lemma_cover_basics(j);
        self.lemma_child_cover(j);
        let mid = self.blo(r);
        if self.realized(j) {
            assert(self.realized(l));
            if self.realized(r) {
                assert(self.bhi(l) == mid);
                assert(self.bhi(r) == self.bhi(j));
                lemma_seg_split(self.bits@, self.bs(), self.blo(j), mid, self.bhi(j));
                assert(self.node_seg(j) == self.node_seg(l) + self.node_seg(r));
                lemma_total_concat(self.node_seg(l), self.node_seg(r));
                lemma_minmax_concat(self.node_seg(l), self.node_seg(r));
            } else {
                // the right slot covers no realized block: the parent's
                // range is the left child's range, and the neutral
                // aggregate leaves the combination unchanged
                assert(mid >= self.nb());
                assert(self.bhi(l) == self.nb());
                assert(self.bhi(j) == self.nb());
                assert(self.node_seg(j) == self.node_seg(l));
                lemma_agg_bounds(self.node_seg(l));
                assert(self.nodes@[r].total == 0);
            }
        } else {
            assert(!self.realized(l));
            assert(!self.realized(r));
        }
    }

    /// After copying the sole (left) child into slot `j`, slot `j` records
    /// the aggregate of its covered range.
    proof fn lemma_copy_after(self, j: int)
        requires
            self.bs() >= 1,
            3 * self.m() <= usize::MAX as nat,
            self.m() > 0,
            self.nodes@.len() == self.size(),
            0 <= j < self.ic(),
            2 * j + 1 < self.size(),
            2 * j + 2 >= self.size(),
            self.node_ok(2 * j + 1),
            self.nodes@[j] == self.nodes@[2 * j + 1],
        ensures
            self.node_ok(j),
    {
        let l = 2 * j + 1;
        let r = 2 * j + 2;
        self.lemma_shape();
        self.lemma_cover_basics(j);
        self.lemma_child_cover(j);
        let mid = self.blo(r);
        self.lemma_internal_iff(j);
        // the right slot lies past the array, hence past the realized blocks
        assert(depth(r as nat) <= self.ht());
        assert((r + 1) * self.span(r) >= r + 1) by (nonlinear_arith)
            requires
                self.span(r) >= 1,
                r + 1 >= 1,
        ;
        assert(mid >= r - self.ic() >= self.nb());
        if self.realized(j) {
            assert(self.realized(l));
            assert(self.bhi(l) == self.nb());
            assert(self.bhi(j) == self.nb());
            assert(self.node_seg(j) == self.node_seg(l));
        } else {
            assert(!self.realized(l));
        }
    }

    /// Builds the index over `bit_vec` with the given block size: one
    /// aggregate per block at the leaf level, internal nodes combined
    /// bottom-up.  An empty sequence yields an empty tree.
    pub fn excess_tree(bit_vec: &BitVec, block_size: usize) -> (r: Self)
        requires
            block_size >= 1,
            3 * bit_vec@.len() <= usize::MAX as nat,
        ensures
            r.wf(),
            r.bits@ == bit_vec@,
            r.block_size@ == block_size as nat,
    {
        let ghost gbits = bit_vec@;
        let ghost gbs = block_size as nat;
        if bit_vec.is_empty() {
            let t = MinMaxTree { nodes: Vec::new(), bits: Ghost(gbits), block_size: Ghost(gbs) };
            proof {
                lemma_n_blocks(0, gbs);
            }
            return t;
        }
        let m = bit_vec.len();
        let num_leaves = if m % block_size == 0 {
            m / block_size
        } else {
            m / block_size + 1
        };
        proof {
            vstd::arithmetic::div_mod::lemma_fundamental_div_mod(m as int, block_size as int);
            vstd::arithmetic::div_mod::lemma_mod_bound(m as int, block_size as int);
            let q = m as int / block_size as int;
            let rr = m as int % block_size as int;
            if rr == 0 {
                vstd::arithmetic::div_mod::lemma_fundamental_div_mod_converse(
                    (m + block_size - 1) as int,
                    block_size as int,
                    q,
                    (block_size - 1) as int,
                );
            } else {
                assert((m + block_size - 1) as int == (q + 1) * block_size + (rr - 1))
                    by (nonlinear_arith)
                    requires
                        m as int == q * block_size + rr,
                        block_size >= 1,
                ;
                vstd::arithmetic::div_mod::lemma_fundamental_div_mod_converse(
                    (m + block_size - 1) as int,
                    block_size as int,
                    q + 1,
                    rr - 1,
                );
            }
            assert(num_leaves == n_blocks(gbits.len(), gbs));
            lemma_n_blocks(gbits.len(), gbs);
            lemma_n_blocks_le(gbits.len(), gbs);
        }
        let ghost l = n_blocks(gbits.len(), gbs);
        let num_internal = if num_leaves == 1 {
            1
        } else {
            next_pow2(num_leaves) - 1
        };
        let ghost gt0 = MinMaxTree {
            nodes: vstd::pervasive::arbitrary(),
            bits: Ghost(gbits),
            block_size: Ghost(gbs),
        };
        proof {
            gt0.lemma_shape();
            if num_leaves == 1 {
                assert(clog2(1nat) == 0);
                assert(pow2(1) == 2) by {
                    vstd::arithmetic::power2::lemma2_to64();
                }
            } else {
                lemma_clog2(l);
                assert(clog2(l) >= 1) by {
                    if clog2(l) == 0 {
                        assert(pow2(0) == 1) by {
                            vstd::arithmetic::power2::lemma2_to64();
                        }
                    }
                }
            }
            assert(num_internal == gt0.ic());
        }
        let n = num_internal + num_leaves;
        proof {
            assert(n == gt0.size());
        }

        // internal placeholders, all neutral
        let mut nodes: Vec<ExcessNode> = Vec::new();
        let mut i: usize = 0;
        while i < num_internal
            invariant
                i <= num_internal,
                nodes@.len() == i,
                forall|k: int|
                    0 <= k < i ==> (#[trigger] nodes@[k]).total == 0 && nodes@[k].min == 0
                        && nodes@[k].max == 0,
            decreases num_internal - i,
        {
            nodes.push(ExcessNode { total: 0, min: 0, max: 0 });
            i = i + 1;
        }

        // one scan per block, emitting the leaf aggregates in order
        let mut b: usize = 0;
        while b < num_leaves
            invariant
                b <= num_leaves,
                num_leaves == l,
                l == n_blocks(gbits.len(), gbs),
                gbs == block_size as nat,
                block_size >= 1,
                m == gbits.len(),
                bit_vec@ == gbits,
                m >= 1,
                3 * m <= usize::MAX as nat,
                nodes@.len() == num_internal + b,
                forall|k: int|
                    0 <= k < num_internal ==> (#[trigger] nodes@[k]).total == 0 && nodes@[k].min
                        == 0 && nodes@[k].max == 0,
                forall|k: int|
                    num_internal <= k < num_internal + b ==> agg_matches(
                        #[trigger] nodes@[k],
                        block(gbits, gbs, k - num_internal),
                    ),
            decreases num_leaves - b,
        {
            proof {
                lemma_block_nonempty(gbits, gbs, b as int);
                assert((b as int + 1) * gbs == b as int * gbs + gbs) by (nonlinear_arith);
            }
            let start = b * block_size;
            let end = if m - start >= block_size {
                start + block_size
            } else {
                m
            };
            let ghost blk = block(gbits, gbs, b as int);
            proof {
                assert(blk =~= gbits.subrange(start as int, end as int));
            }
            let first = bit_vec.is_bit_set(start);
            let mut total: i64 = if first {
                1
            } else {
                -1
            };
            let mut mn: i64 = total;
            let mut mx: i64 = total;
            proof {
                lemma_take_step(blk, 0);
            }
            let mut k = start + 1;
            while k < end
                invariant
                    start < k <= end,
                    end <= m,
                    m == gbits.len(),
                    bit_vec@ == gbits,
                    3 * m <= usize::MAX as nat,
                    blk.len() == end - start,
                    forall|j: int| 0 <= j < blk.len() ==> blk[j] == gbits[start + j],
                    total == total_of(blk.take(k - start)),
                    mn == min_of(blk.take(k - start)),
                    mx == max_of(blk.take(k - start)),
                decreases end - k,
            {
                let bitv = bit_vec.is_bit_set(k);
                proof {
                    lemma_take_step(blk, k - start);
                    lemma_total_bound(blk.take(k - start + 1));
                    assert(blk[k - start] == gbits[k as int]);
                }
                total = total + (if bitv {
                    1
                } else {
                    -1
                });
                if total < mn {
                    mn = total;
                }
                if total > mx {
                    mx = total;
                }
                k = k + 1;
            }
            proof {
                assert(blk.take(end - start) =~= blk);
            }
            nodes.push(ExcessNode { total, min: mn, max: mx });
            b = b + 1;
        }

        // combine the internal levels bottom-up
        let mut tree = MinMaxTree { nodes, bits: Ghost(gbits), block_size: Ghost(gbs) };
        let mut j = num_internal;
        proof {
            assert forall|k: int| j <= k < n implies #[trigger] tree.node_ok(k) by {
                tree.lemma_leaf_cover(k);
                assert(agg_matches(tree.nodes@[k], block(gbits, gbs, k - num_internal)));
            }
        }
        while j > 0
            invariant
                0 <= j <= num_internal,
                tree.bits@ == gbits,
                tree.block_size@ == gbs,
                gbs == block_size as nat,
                block_size >= 1,
                tree.m() == m,
                m >= 1,
                3 * m <= usize::MAX as nat,
                num_internal == tree.ic(),
                n == tree.size(),
                tree.nodes@.len() == n,
                forall|k: int| j <= k < n ==> #[trigger] tree.node_ok(k),
                forall|k: int|
                    0 <= k < j ==> (#[trigger] tree.nodes@[k]).total == 0 && tree.nodes@[k].min
                        == 0 && tree.nodes@[k].max == 0,
            decreases j,
        {
            j = j - 1;
            let ghost pre = tree;
            proof {
                tree.lemma_shape();
                tree.lemma_cover_basics(j as int);
                tree.lemma_child_cover(j as int);
            }
            let ghost lg = 2 * (j as int) + 1;
            let ghost rg = 2 * (j as int) + 2;
            if n >= 2 && j <= (n - 2) / 2 {
                let lc = 2 * j + 1;
                if n >= 3 && j <= (n - 3) / 2 {
                    let rc = 2 * j + 2;
                    let lt = tree.nodes[lc].total;
                    let lmin = tree.nodes[lc].min;
                    let lmax = tree.nodes[lc].max;
                    let rt = tree.nodes[rc].total;
                    let rmin = tree.nodes[rc].min;
                    let rmax = tree.nodes[rc].max;
                    proof {
                        tree.lemma_combine(j as int);
                        assert(m as int <= usize::MAX as int / 3);
                    }
                    let t2 = lt + rt;
                    let a2 = lt + rmin;
                    let b2 = lt + rmax;
                    let nmin = if lmin <= a2 {
                        lmin
                    } else {
                        a2
                    };
                    let nmax = if lmax >= b2 {
                        lmax
                    } else {
                        b2
                    };
                    tree.nodes[j] = ExcessNode { total: t2, min: nmin, max: nmax };
                    proof {
                        assert forall|k: int| j < k < n implies #[trigger] tree.node_ok(k) by {
                            assert(tree.nodes@[k] == pre.nodes@[k]);
                            assert(pre.node_ok(k));
                        }
                        assert(tree.node_ok(j as int)) by {
                            assert(tree.node_ok(lg) && tree.node_ok(rg));
                            tree.lemma_combine_after(j as int);
                        }
                    }
                } else {
                    let copied = tree.nodes[lc];
                    tree.nodes[j] = copied;
                    proof {
                        assert forall|k: int| j < k < n implies #[trigger] tree.node_ok(k) by {
                            assert(tree.nodes@[k] == pre.nodes@[k]);
                            assert(pre.node_ok(k));
                        }
                        assert(tree.node_ok(j as int)) by {
                            assert(tree.node_ok(lg));
                            tree.lemma_copy_after(j as int);
                        }
                    }
                }
            } else {
                proof {
                    // no child in bounds: this slot covers no realized block
                    if tree.realized(j as int) {
                        assert(tree.realized(lg) && lg < tree.size());
                        assert(false);
                    }
                    assert(tree.node_ok(j as int));
                }
            }
        }
        tree
    }
}

} // verus!
