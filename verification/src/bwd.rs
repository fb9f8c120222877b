//! Backward search: the nearest block strictly to the left of a starting
//! block that contains a position with the requested relative excess.  The
//! mirror of the forward search, with one asymmetric rule: a re-based
//! excess of exactly zero is always accepted at a block's left edge.

use vstd::prelude::*;
use crate::excess::total_of;
use crate::excess::lemma_total_bound;
use crate::excess::lemma_seg_len;
use crate::search::lemma_bwd_shift;
use crate::search::lemma_bwd_match_in_seg;
use crate::search::lemma_walk_transfer_bwd;
use crate::shape::lemma_parent_of;
use crate::tree::MinMaxTree;
use crate::fwd::agg_ok_seg;

verus! {

impl MinMaxTree {
    /// Backward search for the nearest block left of `begin` containing a
    /// position whose excess, measured from the start of block `begin`,
    /// equals `relative_excess`; the answer carries the excess re-based to
    /// the end of the found block.  Absent when no block to the left
    /// qualifies.
    pub fn bwd_search(&self, begin: usize, relative_excess: i64) -> (r: Option<(usize, i64)>)
        requires
            self.wf(),
            relative_excess as int - self.m() as int >= i64::MIN as int,
            relative_excess as int + self.m() as int <= i64::MAX as int,
        ensures
            begin >= self.nb() ==> r is None,
            begin < self.nb() ==> match r {
                None => forall|c: int|
                    0 <= c < begin ==> !(#[trigger] self.bwd_match_at(
                        begin as int,
                        c,
                        relative_excess as int,
                    )),
                Some((b, y)) => {
                    &&& b < begin
                    &&& self.bwd_match_at(begin as int, b as int, relative_excess as int)
                    &&& y as int == relative_excess + total_of(self.tseg(b + 1, begin as int))
                    &&& forall|c: int|
                        b < c < begin ==> !(#[trigger] self.bwd_match_at(
                            begin as int,
                            c,
                            relative_excess as int,
                        ))
                },
            },
    {
        if self.nodes.len() == 0 {
            proof {
                if self.m() > 0 {
                    self.lemma_shape();
                }
                crate::excess::lemma_n_blocks(self.m(), self.bs());
            }
            return None;
        }
        proof {
            self.lemma_shape();
        }
        let fl = self.first_leaf();
        if begin >= self.nodes.len() - fl {
            return None;
        }
        let v = fl + begin;
        proof {
            self.lemma_leaf_cover(v as int);
            assert(self.blo(v as int) == begin as int);
            assert forall|c: int| 0 <= c <= begin implies i64::MIN <= relative_excess + total_of(
                #[trigger] self.tseg(c, begin as int),
            ) <= i64::MAX by {
                lemma_seg_len(self.bits@, self.bs(), c, begin as int);
                lemma_total_bound(self.tseg(c, begin as int));
            }
        }
        match self.do_bwd_upwards_search(v, relative_excess) {
            None => None,
            Some((nd, y)) => Some((nd - fl, y)),
        }
    }

    /// Ascent phase of the backward search, from a node whose covered range
    /// starts at the reference boundary: searches all blocks left of that
    /// boundary.
    pub fn do_bwd_upwards_search(&self, node: usize, relative_excess: i64) -> (r: Option<
        (usize, i64),
    >)
        requires
            self.wf(),
            self.m() > 0,
            1 <= node < self.nodes@.len(),
            self.realized(node as int),
            self.bwd_fits_range(0, self.blo(node as int), relative_excess as int),
        ensures
            ({
                let b0 = self.blo(node as int);
                match r {
                    None => forall|c: int|
                        0 <= c < b0 ==> !(#[trigger] self.bwd_match_at(
                            b0,
                            c,
                            relative_excess as int,
                        )),
                    Some((nd, y)) => {
                        let b = nd - self.ic();
                        &&& self.ic() <= nd < self.nodes@.len()
                        &&& 0 <= b < b0
                        &&& self.bwd_match_at(b0, b as int, relative_excess as int)
                        &&& y as int == relative_excess + total_of(self.tseg(b + 1, b0))
                        &&& forall|c: int|
                            b < c < b0 ==> !(#[trigger] self.bwd_match_at(
                                b0,
                                c,
                                relative_excess as int,
                            ))
                    },
                }
            }),
        decreases node,
    {
        let ghost v = node as int;
        let ghost b0 = self.blo(v);
        let ghost x = relative_excess as int;
        proof {
            self.lemma_shape();
            self.lemma_cover_basics(v);
            lemma_parent_of(node as nat);
        }
        if self.is_left_child(node) {
            // a left child: its parent's range starts at the same boundary
            let parent = (node - 1) / 2;
            proof {
                self.lemma_internal_iff((v - 1) / 2);
                self.lemma_child_cover((v - 1) / 2);
                assert(v == 2 * ((v - 1) / 2) + 1);
                assert(self.blo((v - 1) / 2) == b0);
            }
            if parent == 0 {
                proof {
                    self.lemma_root_cover();
                    assert(b0 == 0);
                }
                None
            } else {
                self.do_bwd_upwards_search(parent, relative_excess)
            }
        } else {
            let s = node - 1;
            let ghost sg = s as int;
            proof {
                self.lemma_internal_iff((v - 1) / 2);
                self.lemma_child_cover((v - 1) / 2);
                self.lemma_cover_basics((v - 1) / 2);
                assert(v == 2 * ((v - 1) / 2) + 2);
                assert(sg == 2 * ((v - 1) / 2) + 1);
                // the left sibling covers exactly the blocks before the
                // boundary within its parent, all of them realized
                assert(self.blo(sg) == self.blo((v - 1) / 2));
                assert(self.blo(sg) < b0 < self.nb());
                assert(self.bhi(sg) == b0);
                assert(self.realized(sg));
                assert(self.node_ok(sg));
                assert(agg_ok_seg(*self, sg));
                assert(self.node_seg(sg) == self.tseg(self.blo(sg), b0));
                assert(i64::MIN <= x + total_of(self.tseg(self.blo(sg), b0)) <= i64::MAX);
            }
            let st = self.nodes[s].total;
            let z = relative_excess + st;
            let smin = self.nodes[s].min;
            let smax = self.nodes[s].max;
            if z == 0 || (smin <= z && z <= smax) {
                proof {
                    assert(self.blo(sg) + self.span(sg) == b0);
                    assert forall|c: int| self.blo(sg) <= c <= self.bhi(sg) implies i64::MIN <= x
                        + total_of(#[trigger] self.tseg(c, self.bhi(sg))) <= i64::MAX by {
                        assert(self.tseg(c, b0) == self.tseg(c, self.bhi(sg)));
                    }
                }
                self.do_bwd_downwards_search(s, relative_excess)
            } else {
                // the sibling's range admits no answer: skip it whole and
                // re-base past it
                let ghost b2 = self.blo(sg);
                proof {
                    assert forall|c: int| b2 <= c < b0 implies !self.bwd_match_at(b0, c, x) by {
                        if self.bwd_match_at(b0, c, x) {
                            lemma_bwd_match_in_seg(self.bits@, self.bs(), b2, c, b0, x);
                        }
                    }
                }
                let x2 = relative_excess + st;
                let parent = (node - 1) / 2;
                if parent == 0 {
                    proof {
                        self.lemma_root_cover();
                        assert(b2 == 0);
                    }
                    None
                } else {
                    proof {
                        let p = (v - 1) / 2;
                        assert(self.blo(p) == b2);
                        assert(self.realized(p));
                        assert(1 <= p < self.nodes@.len());
                        assert forall|c: int| 0 <= c <= b2 implies i64::MIN <= x2 as int
                            + total_of(#[trigger] self.tseg(c, b2)) <= i64::MAX by {
                            crate::excess::lemma_seg_split(self.bits@, self.bs(), c, b2, b0);
                            crate::excess::lemma_total_concat(self.tseg(c, b2), self.tseg(b2, b0));
                            assert(x2 as int + total_of(self.tseg(c, b2)) == x + total_of(
                                self.tseg(c, b0),
                            ));
                        }
                    }
                    let r = self.do_bwd_upwards_search(parent, x2);
                    proof {
                        match r {
                            None => {
                                assert forall|c: int| 0 <= c < b0 implies !self.bwd_match_at(
                                    b0,
                                    c,
                                    x,
                                ) by {
                                    if c < b2 {
                                        assert(!self.bwd_match_at(b2, c, x2 as int));
                                        lemma_bwd_shift(self.bits@, self.bs(), b2, b0, c, x);
                                    } else {
                                        assert(!self.bwd_match_at(b0, c, x));
                                    }
                                }
                            },
                            Some((nd, y)) => {
                                let b = nd - self.ic();
                                lemma_bwd_shift(self.bits@, self.bs(), b2, b0, b as int, x);
                                assert(self.tseg(b2, b0) == crate::excess::seg(
                                    self.bits@,
                                    self.bs(),
                                    b2,
                                    b0,
                                ));
                                assert(x2 as int == x + total_of(self.tseg(b2, b0)));
                                assert(y as int == x2 + total_of(self.tseg(b + 1, b2)));
                                assert(y as int == x + total_of(self.tseg(b + 1, b0)));
                                assert forall|c: int| b < c < b0 implies !self.bwd_match_at(
                                    b0,
                                    c,
                                    x,
                                ) by {
                                    if c < b2 {
                                        assert(!self.bwd_match_at(b2, c, x2 as int));
                                        lemma_bwd_shift(self.bits@, self.bs(), b2, b0, c, x);
                                    } else {
                                        assert(!self.bwd_match_at(b0, c, x));
                                    }
                                }
                            },
                        }
                    }
                    r
                }
            }
        }
    }

    /// Descent phase of the backward search, into a fully realized node
    /// whose stored aggregate admits the sought excess, measured from the
    /// end of the node's covered range; always finds a block.
    pub fn do_bwd_downwards_search(&self, node: usize, relative_excess: i64) -> (r: Option<
        (usize, i64),
    >)
        requires
            self.wf(),
            self.m() > 0,
            node < self.nodes@.len(),
            self.realized(node as int),
            self.blo(node as int) + self.span(node as int) <= self.nb(),
            ({
                let z = relative_excess + self.nodes@[node as int].total;
                z == 0 || (self.nodes@[node as int].min <= z <= self.nodes@[node as int].max)
            }),
            self.bwd_fits_range(self.blo(node as int), self.bhi(node as int), relative_excess as int),
        ensures
            ({
                let lo = self.blo(node as int);
                let hi = self.bhi(node as int);
                match r {
                    Some((nd, y)) => {
                        let b = nd - self.ic();
                        &&& self.ic() <= nd < self.nodes@.len()
                        &&& lo <= b < hi
                        &&& self.bwd_match_at(hi, b as int, relative_excess as int)
                        &&& y as int == relative_excess + total_of(self.tseg(b + 1, hi))
                        &&& forall|c: int|
                            b < c < hi ==> !(#[trigger] self.bwd_match_at(
                                hi,
                                c,
                                relative_excess as int,
                            ))
                    },
                    None => false,
                }
            }),
        decreases self.nodes@.len() - node,
    {
        let ghost v = node as int;
        let ghost lo = self.blo(v);
        let ghost hi = self.bhi(v);
        let ghost x = relative_excess as int;
        proof {
            self.lemma_shape();
            self.lemma_cover_basics(v);
            assert(self.node_ok(v));
            assert(hi == lo + self.span(v));
            assert(agg_ok_seg(*self, v));
        }
        if self.is_leaf(node) {
            proof {
                self.lemma_leaf_cover(v);
                assert(self.tseg(lo + 1, hi).len() == 0);
                assert(total_of(self.tseg(lo + 1, hi)) == 0);
                assert(self.node_seg(v) == self.tseg(lo, hi));
                assert(self.tseg(lo, hi) == crate::excess::seg(self.bits@, self.bs(), lo, hi));
                assert(self.bwd_match_at(hi, lo, x));
            }
            return Some((node, relative_excess));
        }
        proof {
            self.lemma_internal_iff(v);
            self.lemma_child_cover(v);
        }
        let ghost lg = 2 * v + 1;
        let ghost rg = 2 * v + 2;
        proof {
            // both children are realized: the node's whole range lies
            // within the realized blocks
            assert(self.blo(rg) == lo + self.span(lg) < hi <= self.nb());
            assert(self.realized(rg));
            self.lemma_realized_in_bounds(rg);
            assert(self.realized(lg));
            assert(self.node_ok(lg));
            assert(self.node_ok(rg));
            assert(agg_ok_seg(*self, lg));
            assert(agg_ok_seg(*self, rg));
            assert(self.bhi(rg) == hi);
            assert(self.bhi(lg) == self.blo(rg));
            assert(i64::MIN <= x + total_of(self.tseg(self.blo(rg), hi)) <= i64::MAX);
        }
        let ghost mid = self.blo(rg);
        match self.right_child(node) {
            None => {
                proof {
                    assert(false);
                }
                None
            },
            Some(rc) => {
                let rt = self.nodes[rc].total;
                let zr = relative_excess + rt;
                let rmin = self.nodes[rc].min;
                let rmax = self.nodes[rc].max;
                if zr == 0 || (rmin <= zr && zr <= rmax) {
                    proof {
                        assert forall|c: int| mid <= c <= self.bhi(rg) implies i64::MIN <= x
                            + total_of(#[trigger] self.tseg(c, self.bhi(rg))) <= i64::MAX by {
                            assert(lo <= c <= hi);
                            assert(self.tseg(c, hi) == self.tseg(c, self.bhi(rg)));
                        }
                    }
                    self.do_bwd_downwards_search(rc, relative_excess)
                } else {
                    proof {
                        // the right child's range admits no answer
                        assert forall|c: int| mid <= c < hi implies !self.bwd_match_at(hi, c, x)
                            by {
                            if self.bwd_match_at(hi, c, x) {
                                lemma_bwd_match_in_seg(self.bits@, self.bs(), mid, c, hi, x);
                            }
                        }
                    }
                    let x2 = relative_excess + rt;
                    match self.left_child(node) {
                        None => {
                            proof {
                                self.lemma_realized_in_bounds(lg);
                                assert(false);
                            }
                            None
                        },
                        Some(lc) => {
                            let lt = self.nodes[lc].total;
                            let lmin = self.nodes[lc].min;
                            let lmax = self.nodes[lc].max;
                            proof {
                                // the left child must admit the re-based
                                // excess
                                crate::excess::lemma_seg_split(self.bits@, self.bs(), lo, mid, hi);
                                assert(self.node_seg(v) == self.node_seg(lg) + self.node_seg(rg));
                                lemma_walk_transfer_bwd(self.node_seg(lg), self.node_seg(rg), x);
                                crate::excess::lemma_total_concat(
                                    self.node_seg(lg),
                                    self.node_seg(rg),
                                );
                                assert(i64::MIN <= x + total_of(self.tseg(lo, hi)) <= i64::MAX);
                                assert(self.nodes@[v as int].total == total_of(self.tseg(lo, hi)));
                                assert forall|c: int| lo <= c <= self.bhi(lg) implies i64::MIN
                                    <= x2 as int + total_of(#[trigger] self.tseg(c, self.bhi(lg)))
                                    <= i64::MAX by {
                                    crate::excess::lemma_seg_split(self.bits@, self.bs(), c, mid, hi);
                                    crate::excess::lemma_total_concat(
                                        self.tseg(c, mid),
                                        self.tseg(mid, hi),
                                    );
                                    assert(x2 as int + total_of(self.tseg(c, mid)) == x + total_of(
                                        self.tseg(c, hi),
                                    ));
                                    assert(lo <= c <= hi);
                                }
                            }
                            let zl = x2 + lt;
                            proof {
                                assert(zl as int == x + total_of(self.tseg(lo, hi)));
                                assert(zl as int == 0 || (lmin <= zl && zl <= lmax));
                            }
                            if zl == 0 || (lmin <= zl && zl <= lmax) {
                                let r = self.do_bwd_downwards_search(lc, x2);
                                proof {
                                    match r {
                                        Some((nd, y)) => {
                                            let b = nd - self.ic();
                                            lemma_bwd_shift(
                                                self.bits@,
                                                self.bs(),
                                                mid,
                                                hi,
                                                b as int,
                                                x,
                                            );
                                            assert(self.tseg(mid, hi) == crate::excess::seg(
                                                self.bits@,
                                                self.bs(),
                                                mid,
                                                hi,
                                            ));
                                            assert(x2 as int == x + total_of(self.tseg(mid, hi)));
                                            assert(y as int == x2 + total_of(
                                                self.tseg(b + 1, mid),
                                            ));
                                            assert(y as int == x + total_of(self.tseg(b + 1, hi)));
                                            assert forall|c: int| b < c < hi implies
                                                !self.bwd_match_at(hi, c, x) by {
                                                if c < mid {
                                                    assert(!self.bwd_match_at(mid, c, x2 as int));
                                                    lemma_bwd_shift(
                                                        self.bits@,
                                                        self.bs(),
                                                        mid,
                                                        hi,
                                                        c,
                                                        x,
                                                    );
                                                } else {
                                                    assert(!self.bwd_match_at(hi, c, x));
                                                }
                                            }
                                        },
                                        None => {},
                                    }
                                }
                                r
                            } else {
                                proof {
                                    assert(false);
                                }
                                None
                            }
                        },
                    }
                }
            },
        }
    }
}

} // verus!
