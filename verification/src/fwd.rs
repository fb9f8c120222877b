//! Forward search: the nearest block strictly to the right of a starting
//! block that contains a position with the requested relative excess, found
//! by ascending to the first right sibling whose aggregate brackets the
//! excess and then descending into it.

use vstd::prelude::*;
use crate::excess::total_of;
use crate::excess::min_of;
use crate::excess::max_of;
use crate::excess::lemma_total_bound;
use crate::excess::lemma_seg_len;
use crate::search::lemma_fwd_shift;
use crate::search::lemma_fwd_match_in_seg;
use crate::search::lemma_walk_transfer_fwd;
use crate::shape::depth;
use crate::shape::lemma_parent_of;
use crate::tree::MinMaxTree;

verus! {

impl MinMaxTree {
    /// Forward search for the nearest block right of `begin` containing a
    /// position whose excess, measured from the end of block `begin`,
    /// equals `relative_excess`; the answer carries the excess re-based to
    /// the start of the found block.  Absent when no block to the right
    /// qualifies.
    pub fn fwd_search(&self, begin: usize, relative_excess: i64) -> (r: Option<(usize, i64)>)
        requires
            self.wf(),
            relative_excess as int - self.m() as int >= i64::MIN as int,
            relative_excess as int + self.m() as int <= i64::MAX as int,
        ensures
            match r {
                None => forall|c: int|
                    begin + 1 <= c < self.nb() ==> !(#[trigger] self.fwd_match_at(
                        begin + 1,
                        c,
                        relative_excess as int,
                    )),
                Some((b, y)) => {
                    &&& begin < b < self.nb()
                    &&& self.fwd_match_at(begin + 1, b as int, relative_excess as int)
                    &&& y as int == relative_excess - total_of(self.tseg(begin + 1, b as int))
                    &&& forall|c: int|
                        begin + 1 <= c < b ==> !(#[trigger] self.fwd_match_at(
                            begin + 1,
                            c,
                            relative_excess as int,
                        ))
                },
            },
    {
        if self.nodes.len() == 0 {
            proof {
                if self.m() > 0 {
                    self.lemma_shape();
                }
                crate::excess::lemma_n_blocks(self.m(), self.bs());
            }
            return None;
        }
        proof {
            self.lemma_shape();
        }
        let fl = self.first_leaf();
        if begin >= self.nodes.len() - fl {
            return None;
        }
        let v = fl + begin;
        proof {
            self.lemma_leaf_cover(v as int);
            assert(self.bhi(v as int) == begin + 1);
            assert forall|c: int| begin + 1 <= c <= self.nb() implies i64::MIN <= relative_excess
                - total_of(#[trigger] self.tseg(begin + 1, c)) <= i64::MAX by {
                lemma_seg_len(self.bits@, self.bs(), begin + 1, c);
                lemma_total_bound(self.tseg(begin + 1, c));
            }
        }
        match self.do_fwd_upwards_search(v, relative_excess) {
            None => None,
            Some((nd, y)) => Some((nd - fl, y)),
        }
    }

    /// Ascent phase of the forward search, from a node whose covered range
    /// ends at the reference boundary: searches all blocks right of that
    /// boundary.
    pub fn do_fwd_upwards_search(&self, node: usize, relative_excess: i64) -> (r: Option<
        (usize, i64),
    >)
        requires
            self.wf(),
            self.m() > 0,
            1 <= node < self.nodes@.len(),
            self.realized(node as int),
            self.fwd_fits_range(self.bhi(node as int), self.nb() as int, relative_excess as int),
        ensures
            ({
                let e = self.bhi(node as int);
                match r {
                    None => forall|c: int|
                        e <= c < self.nb() ==> !self.fwd_match_at(e, c, relative_excess as int),
                    Some((nd, y)) => {
                        let b = nd - self.ic();
                        &&& self.ic() <= nd < self.nodes@.len()
                        &&& e <= b < self.nb()
                        &&& self.fwd_match_at(e, b as int, relative_excess as int)
                        &&& y as int == relative_excess - total_of(self.tseg(e, b as int))
                        &&& forall|c: int|
                            e <= c < b ==> !self.fwd_match_at(e, c, relative_excess as int)
                    },
                }
            }),
        decreases node,
    {
        let ghost v = node as int;
        let ghost e = self.bhi(v);
        let ghost x = relative_excess as int;
        proof {
            self.lemma_shape();
            self.lemma_cover_basics(v);
            lemma_parent_of(node as nat);
        }
        if !self.is_left_child(node) {
            // a right child: its parent's range ends at the same boundary
            let parent = (node - 1) / 2;
            proof {
                self.lemma_internal_iff((v - 1) / 2);
                self.lemma_child_cover((v - 1) / 2);
                assert(v == 2 * ((v - 1) / 2) + 2);
                assert(self.bhi((v - 1) / 2) == e);
                assert(self.blo((v - 1) / 2) <= self.blo(v));
            }
            if parent == 0 {
                proof {
                    self.lemma_root_cover();
                    assert(e == self.nb());
                }
                None
            } else {
                self.do_fwd_upwards_search(parent, relative_excess)
            }
        } else {
            if node + 1 >= self.nodes.len() {
                // the rightmost node of the array is a leaf covering the
                // last block: nothing lies right of the boundary
                proof {
                    self.lemma_leaf_cover(v);
                    assert(e == self.nb());
                }
                return None;
            }
            let s = node + 1;
            let ghost sg = s as int;
            proof {
                self.lemma_internal_iff((v - 1) / 2);
                self.lemma_child_cover((v - 1) / 2);
                assert(v == 2 * ((v - 1) / 2) + 1);
                assert(sg == 2 * ((v - 1) / 2) + 2);
                assert(self.blo(sg) == self.bhi(v) || (self.blo(sg) >= self.nb() && e
                    == self.nb())) by {
                    if self.blo(sg) < self.nb() {
                        assert(e == vstd::math::min(self.blo(sg), self.nb() as int));
                    }
                }
                assert(self.node_ok(sg));
            }
            let smin = self.nodes[s].min;
            let smax = self.nodes[s].max;
            if smin <= relative_excess && relative_excess <= smax {
                let ghost e2 = self.bhi(sg);
                proof {
                    if self.realized(sg) {
                        assert(self.blo(sg) == e);
                        assert(e2 <= self.nb());
                        assert forall|c: int| self.blo(sg) <= c <= self.bhi(sg) implies i64::MIN
                            <= x - total_of(#[trigger] self.tseg(self.blo(sg), c)) <= i64::MAX by {
                            assert(self.tseg(e, c) == self.tseg(self.blo(sg), c));
                        }
                    }
                }
                let r = self.do_fwd_downwards_search(s, relative_excess);
                proof {
                    if !self.realized(sg) {
                        assert(e == self.nb());
                    }
                }
                r
            } else {
                // the sibling's aggregate excludes the excess: skip its
                // whole range and re-base past it
                let ghost e2 = self.bhi(sg);
                let ghost st = self.nodes@[sg].total as int;
                proof {
                    if self.realized(sg) {
                        assert(self.blo(sg) == e);
                        assert(agg_ok_seg(*self, sg));
                        assert(st == total_of(self.tseg(e, e2)));
                        assert(e <= e2 <= self.nb());
                    } else {
                        assert(e == self.nb());
                        assert(e2 == self.nb());
                        assert(self.tseg(e, e2).len() == 0);
                        assert(st == 0);
                    }
                    assert(i64::MIN <= x - st <= i64::MAX) by {
                        assert(i64::MIN <= x - total_of(self.tseg(e, e2)) <= i64::MAX);
                    }
                }
                let x2 = relative_excess - self.nodes[s].total;
                proof {
                    // nothing in the sibling's range answers the query
                    assert forall|c: int| e <= c < e2 implies !self.fwd_match_at(e, c, x) by {
                        if self.fwd_match_at(e, c, x) {
                            lemma_fwd_match_in_seg(self.bits@, self.bs(), e, c, e2, x);
                        }
                    }
                }
                let parent = (node - 1) / 2;
                if parent == 0 {
                    proof {
                        self.lemma_root_cover();
                        assert(e2 == self.nb());
                    }
                    None
                } else {
                    proof {
                        let p = (v - 1) / 2;
                        assert(self.bhi(p) == e2);
                        assert(self.realized(p));
                        assert(1 <= p < self.nodes@.len());
                        assert forall|c: int| e2 <= c <= self.nb() implies i64::MIN <= x2 as int
                            - total_of(#[trigger] self.tseg(e2, c)) <= i64::MAX by {
                            lemma_fwd_shift(self.bits@, self.bs(), e, e2, c, x);
                            assert(x2 as int - total_of(self.tseg(e2, c)) == x - total_of(
                                self.tseg(e, c),
                            ));
                        }
                    }
                    let r = self.do_fwd_upwards_search(parent, x2);
                    proof {
                        match r {
                            None => {
                                assert forall|c: int| e <= c < self.nb() implies !self.fwd_match_at(
                                    e,
                                    c,
                                    x,
                                ) by {
                                    if c >= e2 {
                                        assert(!self.fwd_match_at(e2, c, x2 as int));
                                        lemma_fwd_shift(self.bits@, self.bs(), e, e2, c, x);
                                        assert(self.tseg(e, e2) == crate::excess::seg(
                                            self.bits@,
                                            self.bs(),
                                            e,
                                            e2,
                                        ));
                                        assert(x2 as int == x - total_of(
                                            crate::excess::seg(self.bits@, self.bs(), e, e2),
                                        ));
                                    } else {
                                        assert(!self.fwd_match_at(e, c, x));
                                    }
                                }
                            },
                            Some((nd, y)) => {
                                let b = nd - self.ic();
                                lemma_fwd_shift(self.bits@, self.bs(), e, e2, b as int, x);
                                assert(self.tseg(e, e2) == crate::excess::seg(
                                    self.bits@,
                                    self.bs(),
                                    e,
                                    e2,
                                ));
                                assert(x2 as int == x - total_of(
                                    crate::excess::seg(self.bits@, self.bs(), e, e2),
                                ));
                                assert(y as int == x2 - total_of(self.tseg(e2, b as int)));
                                assert(y as int == x - total_of(self.tseg(e, b as int)));
                                assert forall|c: int| e <= c < b implies !self.fwd_match_at(
                                    e,
                                    c,
                                    x,
                                ) by {
                                    if c >= e2 {
                                        assert(!self.fwd_match_at(e2, c, x2 as int));
                                        lemma_fwd_shift(self.bits@, self.bs(), e, e2, c, x);
                                    } else {
                                        assert(!self.fwd_match_at(e, c, x));
                                    }
                                }
                            },
                        }
                    }
                    r
                }
            }
        }
    }

    /// Descent phase of the forward search, into a node whose stored
    /// aggregate brackets the sought excess, measured from the start of the
    /// node's covered range.
    pub fn do_fwd_downwards_search(&self, node: usize, relative_excess: i64) -> (r: Option<
        (usize, i64),
    >)
        requires
            self.wf(),
            self.m() > 0,
            node < self.nodes@.len(),
            self.nodes@[node as int].min <= relative_excess <= self.nodes@[node as int].max,
            self.realized(node as int) ==> self.fwd_fits_range(
                self.blo(node as int),
                self.bhi(node as int),
                relative_excess as int,
            ),
        ensures
            ({
                let lo = self.blo(node as int);
                let hi = self.bhi(node as int);
                if self.realized(node as int) {
                    match r {
                        Some((nd, y)) => {
                            let b = nd - self.ic();
                            &&& self.ic() <= nd < self.nodes@.len()
                            &&& lo <= b < hi
                            &&& self.fwd_match_at(lo, b as int, relative_excess as int)
                            &&& y as int == relative_excess - total_of(self.tseg(lo, b as int))
                            &&& forall|c: int|
                                lo <= c < b ==> !self.fwd_match_at(lo, c, relative_excess as int)
                        },
                        None => false,
                    }
                } else {
                    r is None
                }
            }),
        decreases self.nodes@.len() - node,
    {
        let ghost v = node as int;
        let ghost lo = self.blo(v);
        let ghost hi = self.bhi(v);
        let ghost x = relative_excess as int;
        proof {
            self.lemma_shape();
            self.lemma_cover_basics(v);
            assert(self.node_ok(v));
        }
        if self.is_leaf(node) {
            proof {
                self.lemma_leaf_cover(v);
                assert(self.tseg(lo, lo).len() == 0);
                assert(total_of(self.tseg(lo, lo)) == 0);
                assert(self.fwd_match_at(lo, lo, x));
            }
            return Some((node, relative_excess));
        }
        proof {
            self.lemma_internal_iff(v);
            self.lemma_child_cover(v);
        }
        match self.left_child(node) {
            None => {
                proof {
                    if self.realized(v) {
                        assert(self.realized(2 * v + 1) && 2 * v + 1 < self.size());
                        assert(false);
                    }
                }
                None
            },
            Some(lc) => {
                let ghost lg = 2 * v + 1;
                let ghost hil = self.bhi(lg);
                proof {
                    assert(self.node_ok(lg));
                    assert(self.blo(lg) == lo);
                    assert(hil <= hi);
                }
                let lmin = self.nodes[lc].min;
                let lmax = self.nodes[lc].max;
                if lmin <= relative_excess && relative_excess <= lmax {
                    proof {
                        if self.realized(v) {
                            assert(self.realized(lg));
                            assert forall|c: int| lo <= c <= hil implies i64::MIN <= x - total_of(
                                #[trigger] self.tseg(lo, c),
                            ) <= i64::MAX by {
                                assert(lo <= c <= hi);
                            }
                        } else {
                            assert(!self.realized(lg));
                        }
                    }
                    let r = self.do_fwd_downwards_search(lc, relative_excess);
                    r
                } else {
                    proof {
                        // the node is realized: a pruned node carries the
                        // neutral aggregate, which its left child shares,
                        // and that would contradict the failed bracket test
                        if !self.realized(v) {
                            assert(!self.realized(lg));
                            assert(self.nodes@[lg].min == 0 && self.nodes@[lg].max == 0);
                            assert(self.nodes@[v].min == 0 && self.nodes@[v].max == 0);
                            assert(false);
                        }
                        assert(self.realized(lg));
                        assert(agg_ok_seg(*self, lg));
                    }
                    proof {
                        // nothing in the left child's range answers
                        assert forall|c: int| lo <= c < hil implies !self.fwd_match_at(lo, c, x) by {
                            if self.fwd_match_at(lo, c, x) {
                                lemma_fwd_match_in_seg(self.bits@, self.bs(), lo, c, hil, x);
                            }
                        }
                    }
                    match self.right_child(node) {
                        None => {
                            proof {
                                // a realized internal node with no right
                                // slot copies its sole child, so the failed
                                // bracket test is impossible
                                let rg = 2 * v + 2;
                                assert(depth(rg as nat) <= self.ht());
                                assert((rg + 1) * self.span(rg) >= rg + 1) by (nonlinear_arith)
                                    requires
                                        self.span(rg) >= 1,
                                        rg + 1 >= 1,
                                ;
                                assert(self.blo(rg) >= rg - self.ic() >= self.nb());
                                assert(self.bhi(lg) == self.nb());
                                assert(self.bhi(v) == self.nb());
                                assert(self.node_seg(v) == self.node_seg(lg));
                                assert(false);
                            }
                            None
                        },
                        Some(rc) => {
                            let ghost rg = 2 * v + 2;
                            proof {
                                assert(self.node_ok(rg));
                                // the right child is realized: otherwise
                                // the parent's range equals the left
                                // child's and the bracket tests conflict
                                if !self.realized(rg) {
                                    assert(self.blo(rg) >= self.nb());
                                    assert(self.bhi(lg) == self.nb());
                                    assert(self.bhi(v) == self.nb());
                                    assert(self.node_seg(v) == self.node_seg(lg));
                                    assert(false);
                                }
                                assert(self.blo(rg) < self.nb());
                                assert(hil == self.blo(rg));
                                assert(agg_ok_seg(*self, lg));
                                assert(self.nodes@[lg].total == total_of(self.tseg(lo, hil)));
                                assert(lo <= hil <= hi);
                                assert(i64::MIN <= x - total_of(self.tseg(lo, hil)) <= i64::MAX);
                            }
                            let x2 = relative_excess - self.nodes[lc].total;
                            let rmin = self.nodes[rc].min;
                            let rmax = self.nodes[rc].max;
                            proof {
                                // the right child's range must bracket the
                                // re-based excess
                                assert(self.bhi(rg) == hi);
                                crate::excess::lemma_seg_split(
                                    self.bits@,
                                    self.bs(),
                                    lo,
                                    hil,
                                    hi,
                                );
                                assert(self.node_seg(v) == self.node_seg(lg) + self.node_seg(rg));
                                assert(agg_ok_seg(*self, v));
                                assert(agg_ok_seg(*self, rg));
                                lemma_walk_transfer_fwd(
                                    self.node_seg(lg),
                                    self.node_seg(rg),
                                    x,
                                );
                                assert(rmin <= x2 <= rmax);
                                assert forall|c: int| self.blo(rg) <= c <= self.bhi(rg) implies
                                    i64::MIN <= x2 as int - total_of(
                                    #[trigger] self.tseg(self.blo(rg), c),
                                ) <= i64::MAX by {
                                    lemma_fwd_shift(self.bits@, self.bs(), lo, hil, c, x);
                                    assert(self.tseg(lo, hil) == crate::excess::seg(
                                        self.bits@,
                                        self.bs(),
                                        lo,
                                        hil,
                                    ));
                                    assert(self.tseg(lo, c) == crate::excess::seg(
                                        self.bits@,
                                        self.bs(),
                                        lo,
                                        c,
                                    ));
                                    assert(self.tseg(hil, c) == crate::excess::seg(
                                        self.bits@,
                                        self.bs(),
                                        hil,
                                        c,
                                    ));
                                    assert(lo <= c <= hi);
                                    assert(i64::MIN <= x - total_of(self.tseg(lo, c)) <= i64::MAX);
                                    assert(x2 as int - total_of(self.tseg(hil, c)) == x - total_of(
                                        self.tseg(lo, c),
                                    ));
                                }
                            }
                            let r = self.do_fwd_downwards_search(rc, x2);
                            proof {
                                match r {
                                    Some((nd, y)) => {
                                        let b = nd - self.ic();
                                        lemma_fwd_shift(self.bits@, self.bs(), lo, hil, b as int, x);
                                        assert(self.tseg(lo, hil) == crate::excess::seg(
                                            self.bits@,
                                            self.bs(),
                                            lo,
                                            hil,
                                        ));
                                        assert(x2 as int == x - total_of(
                                            crate::excess::seg(self.bits@, self.bs(), lo, hil),
                                        ));
                                        assert(y as int == x2 - total_of(
                                            self.tseg(hil, b as int),
                                        ));
                                        assert(y as int == x - total_of(self.tseg(lo, b as int)));
                                        assert forall|c: int| lo <= c < b implies !self.fwd_match_at(
                                            lo,
                                            c,
                                            x,
                                        ) by {
                                            if c >= hil {
                                                assert(!self.fwd_match_at(hil, c, x2 as int));
                                                lemma_fwd_shift(self.bits@, self.bs(), lo, hil, c, x);
                                            } else {
                                                assert(!self.fwd_match_at(lo, c, x));
                                            }
                                        }
                                    },
                                    None => {},
                                }
                            }
                            r
                        },
                    }
                }
            },
        }
    }
}

/// The stored aggregate of a realized node is the aggregate of its covered
/// symbols (shorthand used while reasoning inside the searches).
pub open spec fn agg_ok_seg(t: MinMaxTree, k: int) -> bool {
    &&& t.node_seg(k).len() > 0
    &&& t.nodes@[k].total == total_of(t.node_seg(k))
    &&& t.nodes@[k].min == min_of(t.node_seg(k))
    &&& t.nodes@[k].max == max_of(t.node_seg(k))
}

} // verus!
