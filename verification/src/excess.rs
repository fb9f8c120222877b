//! The mathematical model of running excess: the net excess of a symbol
//! sequence, the least and greatest running excess over its non-empty
//! prefixes, and the decomposition of a sequence into fixed-size blocks.

use vstd::prelude::*;

verus! {

/// Contribution of one symbol to the running excess: an open mark (`true`)
/// counts +1, a close mark (`false`) counts -1.
pub open spec fn bit_excess(b: bool) -> int {
    if b {
        1
    } else {
        -1
    }
}

/// Net excess of a whole symbol sequence.
pub open spec fn total_of(s: Seq<bool>) -> int
    decreases s.len(),
{
    if s.len() == 0 {
        0
    } else {
        total_of(s.drop_last()) + bit_excess(s.last())
    }
}

/// Least running excess over the non-empty prefixes of `s`.
pub open spec fn min_of(s: Seq<bool>) -> int
    recommends
        s.len() > 0,
    decreases s.len(),
{
    if s.len() <= 1 {
        total_of(s)
    } else {
        vstd::math::min(min_of(s.drop_last()), total_of(s))
    }
}

/// Greatest running excess over the non-empty prefixes of `s`.
pub open spec fn max_of(s: Seq<bool>) -> int
    recommends
        s.len() > 0,
    decreases s.len(),
{
    if s.len() <= 1 {
        total_of(s)
    } else {
        vstd::math::max(max_of(s.drop_last()), total_of(s))
    }
}

/// The net excess moves by one per symbol, so it is bounded by the length.
pub proof fn lemma_total_bound(s: Seq<bool>)
    ensures
        -(s.len() as int) <= total_of(s) <= s.len() as int,
    decreases s.len(),
{
    if s.len() > 0 {
        lemma_total_bound(s.drop_last());
    }
}

/// The full sequence is one of the evaluated prefixes, so the net excess
/// lies between the prefix extremes, and the extremes are length-bounded.
pub proof fn lemma_agg_bounds(s: Seq<bool>)
    requires
        s.len() > 0,
    ensures
        min_of(s) <= total_of(s) <= max_of(s),
        -(s.len() as int) <= min_of(s),
        max_of(s) <= s.len() as int,
    decreases s.len(),
{
    lemma_total_bound(s);
    if s.len() > 1 {
        lemma_agg_bounds(s.drop_last());
    }
}

/// The first prefix has excess +1 or -1, so the least extreme is at most 1
/// and the greatest extreme is at least -1.
pub proof fn lemma_first_step(s: Seq<bool>)
    requires
        s.len() > 0,
    ensures
        min_of(s) <= 1,
        max_of(s) >= -1,
    decreases s.len(),
{
    if s.len() > 1 {
        lemma_first_step(s.drop_last());
    } else {
        assert(total_of(s.drop_last()) == 0);
    }
}

/// Net excess adds across concatenation.
pub proof fn lemma_total_concat(a: Seq<bool>, b: Seq<bool>)
    ensures
        total_of(a + b) == total_of(a) + total_of(b),
    decreases b.len(),
{
    if b.len() == 0 {
        assert(a + b =~= a);
    } else {
        lemma_total_concat(a, b.drop_last());
        assert((a + b).drop_last() =~= a + b.drop_last());
        assert((a + b).last() == b.last());
    }
}

/// How the prefix extremes combine across concatenation: a prefix of `a + b`
/// is either a prefix of `a`, or all of `a` followed by a prefix of `b`.
pub proof fn lemma_minmax_concat(a: Seq<bool>, b: Seq<bool>)
    requires
        a.len() > 0,
        b.len() > 0,
    ensures
        min_of(a + b) == vstd::math::min(min_of(a), total_of(a) + min_of(b)),
        max_of(a + b) == vstd::math::max(max_of(a), total_of(a) + max_of(b)),
    decreases b.len(),
{
    lemma_total_concat(a, b);
    if b.len() == 1 {
        assert((a + b).drop_last() =~= a);
        assert((a + b).last() == b.last());
    } else {
        lemma_minmax_concat(a, b.drop_last());
        lemma_total_concat(a, b.drop_last());
        assert((a + b).drop_last() =~= a + b.drop_last());
        assert((a + b).last() == b.last());
    }
}

/// Every non-empty prefix evaluates between the recorded extremes.
pub proof fn lemma_prefix_in_range(s: Seq<bool>, k: int)
    requires
        1 <= k <= s.len(),
    ensures
        min_of(s) <= total_of(s.take(k)) <= max_of(s),
    decreases s.len(),
{
    if k == s.len() {
        assert(s.take(k) =~= s);
        lemma_agg_bounds(s);
    } else {
        assert(s.take(k) =~= s.drop_last().take(k));
        lemma_prefix_in_range(s.drop_last(), k);
    }
}

/// Discrete intermediate-value property: the running excess moves by one per
/// symbol, so every value between the prefix extremes is attained by some
/// non-empty prefix.
pub proof fn lemma_attains(s: Seq<bool>, v: int)
    requires
        s.len() > 0,
        min_of(s) <= v <= max_of(s),
    ensures
        exists|k: int| 1 <= k <= s.len() && total_of(#[trigger] s.take(k)) == v,
    decreases s.len(),
{
    if s.len() == 1 {
        assert(s.take(1) =~= s);
        assert(total_of(s.take(1)) == v);
    } else {
        let t = s.drop_last();
        lemma_agg_bounds(t);
        if min_of(t) <= v <= max_of(t) {
            lemma_attains(t, v);
            let k = choose|k: int| 1 <= k <= t.len() && total_of(#[trigger] t.take(k)) == v;
            assert(s.take(k) =~= t.take(k));
            assert(total_of(s.take(k)) == v);
        } else {
            // v lies outside the extremes of the shorter walk, yet inside the
            // extremes of the full walk: only the final step can attain it.
            assert(total_of(s) == total_of(t) + bit_excess(s.last()));
            assert(total_of(s.take(s.len() as int)) == total_of(s)) by {
                assert(s.take(s.len() as int) =~= s);
            }
            assert(total_of(s) == v);
        }
    }
}

/// Extending a walk to the left shifts its extremes by the prefix total and
/// can only widen the recorded range.
pub proof fn lemma_pad_left(a: Seq<bool>, b: Seq<bool>)
    requires
        b.len() > 0,
    ensures
        min_of(a + b) <= total_of(a) + min_of(b),
        total_of(a) + max_of(b) <= max_of(a + b),
    decreases a.len(),
{
    if a.len() == 0 {
        assert(a + b =~= b);
    } else {
        lemma_minmax_concat(a, b);
    }
}

/// Extending a walk to the right can only widen the recorded range.
pub proof fn lemma_pad_right(a: Seq<bool>, b: Seq<bool>)
    requires
        a.len() > 0,
    ensures
        min_of(a + b) <= min_of(a),
        max_of(a) <= max_of(a + b),
{
    if b.len() == 0 {
        assert(a + b =~= a);
    } else {
        lemma_minmax_concat(a, b);
    }
}

/// One scanning step: how the aggregates of `s.take(k + 1)` follow from
/// those of `s.take(k)` and the symbol `s[k]`.
pub proof fn lemma_take_step(s: Seq<bool>, k: int)
    requires
        0 <= k < s.len(),
    ensures
        total_of(s.take(k + 1)) == total_of(s.take(k)) + bit_excess(s[k]),
        k >= 1 ==> min_of(s.take(k + 1)) == vstd::math::min(
            min_of(s.take(k)),
            total_of(s.take(k + 1)),
        ),
        k >= 1 ==> max_of(s.take(k + 1)) == vstd::math::max(
            max_of(s.take(k)),
            total_of(s.take(k + 1)),
        ),
        k == 0 ==> min_of(s.take(1)) == bit_excess(s[0]) && max_of(s.take(1)) == bit_excess(s[0])
            && total_of(s.take(1)) == bit_excess(s[0]),
{
    assert(s.take(k + 1).drop_last() =~= s.take(k));
    assert(s.take(k + 1).last() == s[k]);
    if k == 0 {
        assert(total_of(s.take(0)) == 0);
    }
}

/// Number of blocks of size `bs` needed to cover `m` symbols; the final
/// block may be partial.
pub open spec fn n_blocks(m: nat, bs: nat) -> nat
    recommends
        bs >= 1,
{
    (((m + bs - 1) as int) / (bs as int)) as nat
}

/// The symbols of blocks `[i, j)`, clamped to the end of the sequence.
pub open spec fn seg(bits: Seq<bool>, bs: nat, i: int, j: int) -> Seq<bool>
    recommends
        bs >= 1,
        0 <= i <= j,
{
    bits.subrange(
        vstd::math::min(i * bs, bits.len() as int),
        vstd::math::min(j * bs, bits.len() as int),
    )
}

/// The symbols of the single block `i`.
pub open spec fn block(bits: Seq<bool>, bs: nat, i: int) -> Seq<bool> {
    seg(bits, bs, i, i + 1)
}

/// Ceiling division characterised: the blocks cover the sequence and the
/// last block is not empty.
pub proof fn lemma_n_blocks(m: nat, bs: nat)
    requires
        bs >= 1,
    ensures
        n_blocks(m, bs) * bs >= m,
        m > 0 ==> (n_blocks(m, bs) - 1) * bs < m,
        m > 0 ==> n_blocks(m, bs) >= 1,
        m == 0 ==> n_blocks(m, bs) == 0,
{
    let l = ((m + bs - 1) as int) / (bs as int);
    vstd::arithmetic::div_mod::lemma_fundamental_div_mod((m + bs - 1) as int, bs as int);
    let r = (m + bs - 1) as int % (bs as int);
    vstd::arithmetic::div_mod::lemma_mod_bound((m + bs - 1) as int, bs as int);
    assert((m + bs - 1) as int == (bs as int) * l + r);
    assert(l * bs == (bs as int) * l) by (nonlinear_arith);
    if m == 0 {
        assert((bs as int) * l + r == bs - 1);
        if l >= 1 {
            assert((bs as int) * l >= bs) by (nonlinear_arith)
                requires
                    l >= 1,
                    bs >= 1,
            ;
        }
        if l < 0 {
            assert((bs as int) * l <= -(bs as int)) by (nonlinear_arith)
                requires
                    l <= -1,
                    bs >= 1,
            ;
        }
        assert(l == 0);
    } else {
        assert((bs as int) * l == m + bs - 1 - r >= m);
        assert((bs as int) * (l - 1) == m - 1 - r < m) by (nonlinear_arith)
            requires
                (bs as int) * l == m + bs - 1 - r,
                bs >= 1,
                0 <= r,
        ;
        assert((l - 1) * bs == (bs as int) * (l - 1)) by (nonlinear_arith);
        if l < 1 {
            assert((bs as int) * l <= 0) by (nonlinear_arith)
                requires
                    l <= 0,
                    bs >= 1,
            ;
        }
    }
}

/// There are never more blocks than symbols.
pub proof fn lemma_n_blocks_le(m: nat, bs: nat)
    requires
        bs >= 1,
    ensures
        n_blocks(m, bs) <= m,
{
    let l = n_blocks(m, bs);
    lemma_n_blocks(m, bs);
    if l > m {
        assert((bs as int) * (l as int) >= (bs as int) * (m + 1)) by (nonlinear_arith)
            requires
                l >= m + 1,
                bs >= 1,
        ;
        assert((bs as int) * (m + 1) >= m + bs) by (nonlinear_arith)
            requires
                bs >= 1,
                m >= 0,
        ;
        assert((l as int) * (bs as int) == (bs as int) * (l as int)) by (nonlinear_arith);
        vstd::arithmetic::div_mod::lemma_fundamental_div_mod((m + bs - 1) as int, bs as int);
        vstd::arithmetic::div_mod::lemma_mod_bound((m + bs - 1) as int, bs as int);
        assert(false);
    }
}

/// A block range holds at most the whole sequence.
pub proof fn lemma_seg_len(bits: Seq<bool>, bs: nat, i: int, j: int)
    requires
        bs >= 1,
        0 <= i <= j,
    ensures
        0 <= seg(bits, bs, i, j).len() <= bits.len(),
{
    assert(0 <= i * bs && i * bs <= j * bs) by (nonlinear_arith)
        requires
            0 <= i <= j,
            bs >= 1,
    ;
}

/// Splitting a clamped block range at an interior point splits its symbols.
pub proof fn lemma_seg_split(bits: Seq<bool>, bs: nat, i: int, j: int, k: int)
    requires
        bs >= 1,
        0 <= i <= j <= k,
    ensures
        seg(bits, bs, i, k) == seg(bits, bs, i, j) + seg(bits, bs, j, k),
{
    let m = bits.len() as int;
    assert(i * bs <= j * bs && j * bs <= k * bs) by (nonlinear_arith)
        requires
            0 <= i <= j <= k,
            bs >= 1,
    ;
    assert(seg(bits, bs, i, k) =~= seg(bits, bs, i, j) + seg(bits, bs, j, k));
}

/// Block ranges past the end of the sequence hold no symbols, so clamping
/// the upper bound at the block count changes nothing.
pub proof fn lemma_seg_clamp(bits: Seq<bool>, bs: nat, i: int, j: int, j2: int)
    requires
        bs >= 1,
        0 <= i <= j,
        i <= j2 <= j,
        j2 * bs >= bits.len(),
    ensures
        seg(bits, bs, i, j) == seg(bits, bs, i, j2),
{
    assert(i * bs <= j2 * bs && j2 * bs <= j * bs) by (nonlinear_arith)
        requires
            0 <= i <= j2 <= j,
            bs >= 1,
    ;
    assert(seg(bits, bs, i, j) =~= seg(bits, bs, i, j2));
}

/// Every block before the block count holds at least one symbol.
pub proof fn lemma_block_nonempty(bits: Seq<bool>, bs: nat, i: int)
    requires
        bs >= 1,
        0 <= i < n_blocks(bits.len(), bs),
    ensures
        block(bits, bs, i).len() > 0,
        i * bs < bits.len(),
    decreases 0int,
{
    let m = bits.len();
    let l = n_blocks(m, bs) as int;
    lemma_n_blocks(m, bs);
    assert(i * bs <= (l - 1) * bs) by (nonlinear_arith)
        requires
            i <= l - 1,
            bs >= 1,
    ;
    assert(i * bs < m);
    assert((i + 1) * bs == i * bs + bs) by (nonlinear_arith);
}

/// A segment reaching to any block before the count is non-empty.
pub proof fn lemma_seg_nonempty(bits: Seq<bool>, bs: nat, i: int, j: int)
    requires
        bs >= 1,
        0 <= i < j,
        i < n_blocks(bits.len(), bs),
    ensures
        seg(bits, bs, i, j).len() > 0,
{
    lemma_block_nonempty(bits, bs, i);
    assert(i * bs + bs <= j * bs) by (nonlinear_arith)
        requires
            i + 1 <= j,
            bs >= 1,
    ;
    assert((i + 1) * bs == i * bs + bs) by (nonlinear_arith);
}

/// The full range of blocks is the whole sequence.
pub proof fn lemma_seg_all(bits: Seq<bool>, bs: nat)
    requires
        bs >= 1,
    ensures
        seg(bits, bs, 0, n_blocks(bits.len(), bs) as int) == bits,
    decreases 0int,
{
    lemma_n_blocks(bits.len(), bs);
    assert(seg(bits, bs, 0, n_blocks(bits.len(), bs) as int) =~= bits);
}

} // verus!
