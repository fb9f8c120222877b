//! The min-max tree itself: one aggregate node per range of blocks, stored
//! as a complete binary tree in a flat array, together with the navigator
//! primitives over node indices.

use vstd::prelude::*;
use vstd::arithmetic::power2::pow2;
use vstd::arithmetic::power2::lemma_pow2_pos;
use vstd::arithmetic::power2::lemma_pow2_unfold;
use vstd::arithmetic::power2::lemma_pow2_adds;
use vstd::arithmetic::power2::lemma_pow2_strictly_increases;
use crate::excess::total_of;
use crate::excess::min_of;
use crate::excess::max_of;
use crate::excess::n_blocks;
use crate::excess::seg;
use crate::excess::block;
use crate::excess::lemma_n_blocks;
use crate::shape::clog2;
use crate::shape::depth;
use crate::shape::lemma_clog2;
use crate::shape::lemma_pow2_unique;
use crate::shape::lemma_depth_range;
use crate::shape::lemma_depth_of_range;
use crate::shape::lemma_depth_child;

verus! {

/// One aggregate: the net excess of a range of symbols together with the
/// least and greatest running excess over the range's non-empty prefixes.
#[derive(Clone, Copy, Debug, PartialEq, Eq)]
pub struct ExcessNode {
    /// net excess across the represented range
    pub total: i64,
    /// least running excess over the range's non-empty prefixes
    pub min: i64,
    /// greatest running excess over the range's non-empty prefixes
    pub max: i64,
}

/// Whether `n` records exactly the aggregate of the symbol range `s`.
pub open spec fn agg_matches(n: ExcessNode, s: Seq<bool>) -> bool {
    &&& s.len() > 0
    &&& n.total == total_of(s)
    &&& n.min == min_of(s)
    &&& n.max == max_of(s)
}

/// The excess index: a flat array of aggregates forming a complete binary
/// tree whose leaves summarise consecutive fixed-size blocks of the symbol
/// sequence, built once and immutable thereafter.
pub struct MinMaxTree {
    /// internal nodes in `[0, first leaf)`, then the leaf aggregates in
    /// left-to-right block order
    pub nodes: Vec<ExcessNode>,
    /// the symbol sequence the tree was built from
    pub bits: Ghost<Seq<bool>>,
    /// the block size the tree was built with
    pub block_size: Ghost<nat>,
}

impl MinMaxTree {
    /// Length of the underlying symbol sequence.
    pub open spec fn m(self) -> nat {
        self.bits@.len()
    }

    /// Block size.
    pub open spec fn bs(self) -> nat {
        self.block_size@
    }

    /// Number of leaf blocks.
    pub open spec fn nb(self) -> nat {
        n_blocks(self.m(), self.bs())
    }

    /// Depth of the leaf level.
    pub open spec fn ht(self) -> nat {
        if clog2(self.nb()) == 0 {
            1
        } else {
            clog2(self.nb())
        }
    }

    /// Number of internal nodes, which is also the index of the first leaf.
    pub open spec fn ic(self) -> nat {
        (pow2(self.ht()) - 1) as nat
    }

    /// Total node count of a non-empty tree.
    pub open spec fn size(self) -> nat {
        self.ic() + self.nb()
    }

    /// Number of leaf slots below node `k` in the unpruned tree.
    pub open spec fn span(self, k: int) -> int
        recommends
            depth(k as nat) <= self.ht(),
    {
        pow2((self.ht() - depth(k as nat)) as nat) as int
    }

    /// First block index covered by node `k` (may reach past the pruned
    /// leaf region for nodes near the right edge).
    pub open spec fn blo(self, k: int) -> int {
        (k + 1) * self.span(k) - 1 - self.ic()
    }

    /// One past the last block index covered by node `k`, clamped to the
    /// realized blocks.
    pub open spec fn bhi(self, k: int) -> int {
        vstd::math::min(self.blo(k) + self.span(k), self.nb() as int)
    }

    /// Whether node `k` covers at least one realized block.
    pub open spec fn realized(self, k: int) -> bool {
        self.blo(k) < self.nb()
    }

    /// The symbols of blocks `[i, j)` of this tree's sequence.
    pub open spec fn tseg(self, i: int, j: int) -> Seq<bool> {
        seg(self.bits@, self.bs(), i, j)
    }

    /// The symbols covered by node `k`.
    pub open spec fn node_seg(self, k: int) -> Seq<bool> {
        self.tseg(self.blo(k), self.bhi(k))
    }

    /// Every realized node records exactly the aggregate of the symbols it
    /// covers; pruned slots keep the neutral all-zero aggregate.
    pub open spec fn node_ok(self, k: int) -> bool {
        if self.realized(k) {
            agg_matches(self.nodes@[k], self.node_seg(k))
        } else {
            self.nodes@[k].total == 0 && self.nodes@[k].min == 0 && self.nodes@[k].max == 0
        }
    }

    /// Well-formedness: the array has the size the construction gives it and
    /// every node records the aggregate of its covered range.
    pub open spec fn wf(self) -> bool {
        &&& self.bs() >= 1
        &&& 3 * self.m() <= usize::MAX as nat
        &&& self.nodes@.len() == if self.m() == 0 {
            0nat
        } else {
            self.size()
        }
        &&& forall|k: int| 0 <= k < self.nodes@.len() ==> #[trigger] self.node_ok(k)
    }

    /// Basic size facts of a non-empty well-formed tree.
    pub proof fn lemma_shape(self)
        requires
            self.bs() >= 1,
            3 * self.m() <= usize::MAX as nat,
            self.m() > 0,
        ensures
            1 <= self.nb(),
            self.nb() <= self.m(),
            1 <= self.ht(),
            2 <= pow2(self.ht()),
            1 <= self.ic(),
            self.nb() <= pow2(self.ht()),
            pow2(self.ht()) < 2 * self.nb() || self.nb() == 1,
            self.nb() == 1 ==> self.ic() == 1 && self.size() == 2,
            self.size() <= 3 * self.nb() - 1,
            self.size() < usize::MAX as nat,
    {
        let m = self.m();
        let bs = self.bs();
        let l = self.nb();
        lemma_n_blocks(m, bs);
        assert(l >= 1);
        // l <= m
        if l > m {
            assert((bs as int) * (l as int) >= (bs as int) * (m + 1)) by (nonlinear_arith)
                requires
                    l >= m + 1,
                    bs >= 1,
            ;
            assert((bs as int) * (m + 1) >= m + bs) by (nonlinear_arith)
                requires
                    bs >= 1,
                    m >= 0,
            ;
            assert((l as int) * (bs as int) == (bs as int) * (l as int)) by (nonlinear_arith);
            vstd::arithmetic::div_mod::lemma_fundamental_div_mod((m + bs - 1) as int, bs as int);
            vstd::arithmetic::div_mod::lemma_mod_bound((m + bs - 1) as int, bs as int);
            assert(false);
        }
        if l == 1 {
            assert(clog2(1) == 0);
            assert(self.ht() == 1);
            lemma_pow2_unfold(1);
            assert(pow2(0) == 1) by {
                vstd::arithmetic::power2::lemma2_to64();
            }
            assert(pow2(1) == 2);
        } else {
            lemma_clog2(l);
            assert(clog2(l) >= 1) by {
                if clog2(l) == 0 {
                    assert(pow2(0) == 1) by {
                        vstd::arithmetic::power2::lemma2_to64();
                    }
                }
            }
            assert(self.ht() == clog2(l));
            lemma_pow2_pos(self.ht());
            assert(pow2(self.ht()) >= l >= 2);
        }
    }

    /// Depth bound and non-negative cover for every node of the array.
    pub proof fn lemma_cover_basics(self, k: int)
        requires
            self.bs() >= 1,
            3 * self.m() <= usize::MAX as nat,
            self.m() > 0,
            0 <= k < self.size(),
        ensures
            depth(k as nat) <= self.ht(),
            1 <= self.span(k),
            0 <= self.blo(k),
            k <= self.blo(k) + self.ic(),
            self.realized(k) ==> self.blo(k) < self.bhi(k) <= self.nb(),
    {
        self.lemma_shape();
        let h = self.ht();
        let d = depth(k as nat);
        lemma_depth_range(k as nat);
        if d > h {
            lemma_pow2_strictly_increases(h + 1, d + 1);
            if h + 1 < d {
                lemma_pow2_strictly_increases(h + 1, d);
            }
            lemma_pow2_unfold(h + 1);
            assert(k >= pow2(d) - 1 >= pow2(h + 1) - 1 == 2 * pow2(h) - 1);
            assert(self.size() <= 2 * pow2(h) - 1);
            assert(false);
        }
        lemma_pow2_pos((h - d) as nat);
        assert(self.span(k) == pow2((h - d) as nat));
        // (k + 1) * span >= pow2(d) * span == pow2(h)
        lemma_pow2_adds(d, (h - d) as nat);
        assert((k + 1) * self.span(k) >= pow2(d) * pow2((h - d) as nat)) by (nonlinear_arith)
            requires
                k + 1 >= pow2(d),
                self.span(k) == pow2((h - d) as nat),
                pow2((h - d) as nat) >= 1,
        ;
        assert(self.blo(k) >= pow2(h) - 1 - self.ic() == 0);
        assert((k + 1) * self.span(k) >= k + 1) by (nonlinear_arith)
            requires
                self.span(k) >= 1,
                k + 1 >= 1,
        ;
        if self.realized(k) {
            assert(self.blo(k) < self.blo(k) + self.span(k));
        }
    }

    /// Leaves cover exactly one realized block each.
    pub proof fn lemma_leaf_cover(self, k: int)
        requires
            self.bs() >= 1,
            3 * self.m() <= usize::MAX as nat,
            self.m() > 0,
            self.ic() <= k < self.size(),
        ensures
            depth(k as nat) == self.ht(),
            self.span(k) == 1,
            self.blo(k) == k - self.ic(),
            self.realized(k),
            self.bhi(k) == self.blo(k) + 1,
            self.node_seg(k) == block(self.bits@, self.bs(), k - self.ic()),
    {
        self.lemma_shape();
        let h = self.ht();
        lemma_pow2_unfold(h + 1);
        lemma_depth_of_range(k as nat, h);
        assert(pow2(0) == 1) by {
            vstd::arithmetic::power2::lemma2_to64();
        }
        assert(self.span(k) == 1);
        assert(self.blo(k) == k - self.ic());
    }

    /// Within the array, the internal indices are exactly those above the
    /// leaf depth.
    pub proof fn lemma_internal_iff(self, k: int)
        requires
            self.bs() >= 1,
            3 * self.m() <= usize::MAX as nat,
            self.m() > 0,
            0 <= k < self.size(),
        ensures
            (k < self.ic()) <==> (depth(k as nat) < self.ht()),
    {
        self.lemma_shape();
        self.lemma_cover_basics(k);
        let h = self.ht();
        lemma_depth_range(k as nat);
        if k < self.ic() {
            if depth(k as nat) == h {
                assert(k >= pow2(h) - 1);
            }
        } else {
            lemma_pow2_unfold(h + 1);
            assert(k < self.size() <= pow2(h) - 1 + pow2(h));
            lemma_depth_of_range(k as nat, h);
        }
    }

    /// How a node's covered range splits between its two child slots.
    pub proof fn lemma_child_cover(self, k: int)
        requires
            self.bs() >= 1,
            3 * self.m() <= usize::MAX as nat,
            self.m() > 0,
            0 <= k < self.ic(),
        ensures
            depth((2 * k + 1) as nat) == depth(k as nat) + 1,
            depth((2 * k + 2) as nat) == depth(k as nat) + 1,
            self.span(2 * k + 1) == self.span(k) / 2,
            self.span(2 * k + 2) == self.span(k) / 2,
            self.span(k) == 2 * self.span(2 * k + 1),
            self.blo(2 * k + 1) == self.blo(k),
            self.blo(2 * k + 2) == self.blo(k) + self.span(2 * k + 1),
            self.bhi(2 * k + 2) == self.bhi(k),
            self.bhi(2 * k + 1) == vstd::math::min(self.blo(k) + self.span(2 * k + 1), self.nb() as int),
            self.realized(k) ==> self.realized(2 * k + 1) && 2 * k + 1 < self.size(),
        decreases 0int,
    {
        self.lemma_shape();
        self.lemma_internal_iff(k);
        self.lemma_cover_basics(k);
        let h = self.ht();
        let d = depth(k as nat);
        lemma_depth_child(k as nat);
        assert(d < h);
        lemma_pow2_unfold((h - d) as nat);
        let s2 = pow2((h - d - 1) as nat) as int;
        assert(self.span(k) == 2 * s2);
        assert(self.span(2 * k + 1) == s2);
        assert(self.span(2 * k + 2) == s2);
        assert((2 * k + 2) * s2 == (k + 1) * (2 * s2)) by (nonlinear_arith);
        assert((2 * k + 3) * s2 == (k + 1) * (2 * s2) + s2) by (nonlinear_arith);
        assert(self.blo(2 * k + 1) == self.blo(k));
        assert(self.blo(2 * k + 2) == self.blo(k) + s2);
        if self.realized(k) {
            assert(self.realized(2 * k + 1));
            self.lemma_realized_in_bounds(2 * k + 1);
        }
    }

    /// A realized node's index lies inside the array.
    pub proof fn lemma_realized_in_bounds(self, k: int)
        requires
            self.bs() >= 1,
            3 * self.m() <= usize::MAX as nat,
            self.m() > 0,
            0 <= k,
            depth(k as nat) <= self.ht(),
            self.realized(k),
        ensures
            k < self.size(),
    {
        self.lemma_shape();
        lemma_pow2_pos((self.ht() - depth(k as nat)) as nat);
        assert((k + 1) * self.span(k) >= k + 1) by (nonlinear_arith)
            requires
                self.span(k) >= 1,
                k + 1 >= 1,
        ;
        assert(k <= self.blo(k) + self.ic() < self.nb() + self.ic());
    }

    /// Pruned nodes of the array are internal.
    pub proof fn lemma_obsolete_internal(self, k: int)
        requires
            self.bs() >= 1,
            3 * self.m() <= usize::MAX as nat,
            self.m() > 0,
            0 <= k < self.size(),
            !self.realized(k),
        ensures
            k < self.ic(),
            depth(k as nat) < self.ht(),
        decreases 0int,
    {
        if k >= self.ic() {
            self.lemma_leaf_cover(k);
        }
        self.lemma_internal_iff(k);
    }

    /// The root covers every realized block.
    pub proof fn lemma_root_cover(self)
        requires
            self.bs() >= 1,
            3 * self.m() <= usize::MAX as nat,
            self.m() > 0,
        ensures
            self.blo(0) == 0,
            self.bhi(0) == self.nb(),
            self.realized(0),
            self.node_seg(0) == self.bits@,
        decreases 0int,
    {
        self.lemma_shape();
        assert(depth(0nat) == 0);
        assert(self.span(0) == pow2(self.ht()) as int);
        assert((0 + 1) * self.span(0) == self.span(0)) by (nonlinear_arith);
        assert(self.blo(0) == 0);
        crate::excess::lemma_seg_all(self.bits@, self.bs());
    }

    /// Net excess stored at `index`.
    pub fn total_excess(&self, index: usize) -> (r: i64)
        requires
            index < self.nodes@.len(),
        ensures
            r == self.nodes@[index as int].total,
    {
        self.nodes[index].total
    }

    /// Least relative excess stored at `index`.
    pub fn min_excess(&self, index: usize) -> (r: i64)
        requires
            index < self.nodes@.len(),
        ensures
            r == self.nodes@[index as int].min,
    {
        self.nodes[index].min
    }

    /// Greatest relative excess stored at `index`.
    pub fn max_excess(&self, index: usize) -> (r: i64)
        requires
            index < self.nodes@.len(),
        ensures
            r == self.nodes@[index as int].max,
    {
        self.nodes[index].max
    }

    /// Index of the parent of `index`, for in-bounds nodes below the root.
    pub fn parent(&self, index: usize) -> (r: Option<usize>)
        requires
            index >= 1,
        ensures
            r == if (index as int) < self.nodes@.len() {
                Some((((index - 1) as int) / 2) as usize)
            } else {
                None::<usize>
            },
    {
        if index < self.nodes.len() {
            Some((index - 1) / 2)
        } else {
            None
        }
    }

    /// Index of the left child of `index`, if it is within bounds.
    pub fn left_child(&self, index: usize) -> (r: Option<usize>)
        ensures
            r == if 2 * (index as int) + 1 < self.nodes@.len() {
                Some((2 * (index as int) + 1) as usize)
            } else {
                None::<usize>
            },
    {
        let n = self.nodes.len();
        if n >= 2 && index <= (n - 2) / 2 {
            Some(2 * index + 1)
        } else {
            None
        }
    }

    /// Index of the right child of `index`, if it is within bounds.
    pub fn right_child(&self, index: usize) -> (r: Option<usize>)
        ensures
            r == if 2 * (index as int) + 2 < self.nodes@.len() {
                Some((2 * (index as int) + 2) as usize)
            } else {
                None::<usize>
            },
    {
        let n = self.nodes.len();
        if n >= 3 && index <= (n - 3) / 2 {
            Some(2 * index + 2)
        } else {
            None
        }
    }

    /// Index of the right sibling of `index`: only a left child whose
    /// sibling position is within bounds has one.
    pub fn right_sibling(&self, index: usize) -> (r: Option<usize>)
        requires
            index >= 1,
        ensures
            r == if index % 2 == 1 && (index as int) + 1 < self.nodes@.len() {
                Some((index + 1) as usize)
            } else {
                None::<usize>
            },
    {
        let n = self.nodes.len();
        if n >= 2 && index % 2 == 1 && index <= n - 2 {
            Some(index + 1)
        } else {
            None
        }
    }

    /// Index of the left sibling of `index`: only a right child within
    /// bounds has one.
    pub fn left_sibling(&self, index: usize) -> (r: Option<usize>)
        requires
            index >= 1,
        ensures
            r == if index % 2 == 0 && (index as int) < self.nodes@.len() {
                Some((index - 1) as usize)
            } else {
                None::<usize>
            },
    {
        if index % 2 == 0 && index < self.nodes.len() {
            Some(index - 1)
        } else {
            None
        }
    }

    /// Whether `index` is (or would be) a left child.
    pub fn is_left_child(&self, index: usize) -> (r: bool)
        requires
            index >= 1,
        ensures
            r == (index % 2 == 1),
    {
        index % 2 == 1
    }

    /// Index of the first leaf, recovered from the array length alone.
    pub fn first_leaf(&self) -> (r: usize)
        requires
            self.wf(),
            self.nodes@.len() > 0,
        ensures
            r == self.ic(),
            r < self.nodes@.len(),
    {
        proof {
            self.lemma_shape();
            self.lemma_first_leaf_calc();
        }
        if self.nodes.len() == 2 {
            1
        } else {
            next_pow2((self.nodes.len() + 1) / 2) - 1
        }
    }

    /// The first-leaf recovery formula agrees with the layout.
    proof fn lemma_first_leaf_calc(self)
        requires
            self.bs() >= 1,
            3 * self.m() <= usize::MAX as nat,
            self.m() > 0,
        ensures
            self.size() == 2 ==> self.ic() == 1,
            self.size() != 2 ==> pow2(clog2(((self.size() + 1) / 2) as nat)) == pow2(self.ht()),
            self.size() != 2 ==> 1 <= (self.size() + 1) / 2 && 2 * ((self.size() + 1) / 2)
                <= usize::MAX as nat,
    {
        self.lemma_shape();
        let l = self.nb() as int;
        let p = pow2(self.ht()) as int;
        let n = self.size() as int;
        if l == 1 {
            assert(n == 2);
        } else {
            assert(n == p - 1 + l);
            let c = (n + 1) / 2;
            assert(c == (p + l) / 2);
            // p is even, 2 <= l <= p, so p / 2 < c <= p
            assert(p % 2 == 0) by {
                lemma_pow2_unfold(self.ht());
            }
            assert(p / 2 + 1 <= c <= p);
            lemma_clog2(c as nat);
            lemma_pow2_unique(clog2(c as nat), self.ht());
        }
    }

    /// Whether `index` lies in the leaf region.
    pub fn is_leaf(&self, index: usize) -> (r: bool)
        requires
            self.wf(),
            self.nodes@.len() > 0,
        ensures
            r == (index as int >= self.ic()),
    {
        index >= self.first_leaf()
    }

    /// Bytes used on the heap by the aggregate array.
    pub fn heap_size(&self) -> (r: usize)
        requires
            self.nodes@.len() * vstd::layout::size_of::<ExcessNode>() <= usize::MAX,
        ensures
            r == self.nodes@.len() * vstd::layout::size_of::<ExcessNode>(),
    {
        self.nodes.len() * core::mem::size_of::<ExcessNode>()
    }
}

/// Least power of two at or above `n`, by doubling.
pub fn next_pow2(n: usize) -> (r: usize)
    requires
        1 <= n,
        2 * (n as int) <= usize::MAX as int,
    ensures
        r == pow2(clog2(n as nat)),
        n <= r,
{
    proof {
        lemma_clog2(n as nat);
    }
    let mut p: usize = 1;
    let ghost mut e: nat = 0;
    proof {
        assert(pow2(0) == 1) by {
            vstd::arithmetic::power2::lemma2_to64();
        }
    }
    while p < n
        invariant
            1 <= p,
            p == pow2(e),
            p < 2 * n,
            2 * (n as int) <= usize::MAX as int,
        decreases 2 * (n as int) - p,
    {
        proof {
            lemma_pow2_unfold(e + 1);
            e = e + 1;
        }
        p = 2 * p;
    }
    proof {
        lemma_clog2(n as nat);
        lemma_pow2_unique(e, clog2(n as nat));
    }
    p
}

} // verus!
