use minmax_tree::bitvec::BitVec;
use minmax_tree::tree::ExcessNode;
use minmax_tree::tree::MinMaxTree;

#[test]
fn test_simple_excess_tree() {
    let bv = BitVec::from_bits(&[
        1, 1, 1, 0, 0, 1, 1, 1,
        0, 1, 0, 1, 1, 1, 0, 0,
        1, 0, 0, 1, 0, 0, 0, 0,
    ]);

    let tree = MinMaxTree::excess_tree(&bv, 8);

    // three internal nodes, three leaves
    assert_eq!(tree.nodes.len(), 6);

    // leaf nodes
    assert_eq!(tree.nodes[3].total, 4);
    assert_eq!(tree.nodes[3].min, 1);
    assert_eq!(tree.nodes[3].max, 4);

    assert_eq!(tree.nodes[4].total, 0);
    assert_eq!(tree.nodes[4].min, -1);
    assert_eq!(tree.nodes[4].max, 2);

    assert_eq!(tree.nodes[5].total, -4);
    assert_eq!(tree.nodes[5].min, -4);
    assert_eq!(tree.nodes[5].max, 1);

    // root node
    assert_eq!(tree.nodes[0].total, 0); // the tree should be balanced
    assert_eq!(tree.nodes[0].min, 0);
    assert_eq!(tree.nodes[0].max, 6);

    // left child of the root
    assert_eq!(tree.nodes[1].total, 4);
    assert_eq!(tree.nodes[1].min, 1);
    assert_eq!(tree.nodes[1].max, 6);

    // right child of the root
    assert_eq!(tree.nodes[2].total, -4);
    assert_eq!(tree.nodes[2].min, -4);
    assert_eq!(tree.nodes[2].max, 1);
}

#[test]
fn test_empty_excess_tree() {
    let bv = BitVec::new();
    let tree = MinMaxTree::excess_tree(&bv, 8);

    assert_eq!(tree.nodes.len(), 0);
}

#[test]
fn test_excess_tree_navigation() {
    // expected tree layout:
    //      0
    //    /  \
    //   1    2
    //   /\  /\
    //  3  4 5 6
    //  /\/\/\/\
    // 7 8 9 10 11 12 - -
    let bv = BitVec::from_bits(&[0; 48]);
    let tree = MinMaxTree::excess_tree(&bv, 8);

    assert_eq!(tree.nodes.len(), 13); // 6 leaves + 7 internal nodes

    // check root
    assert_eq!(tree.left_child(0), Some(1));
    assert_eq!(tree.right_child(0), Some(2));

    // check full nodes
    for node in 1..=5usize {
        assert_eq!(tree.left_child(node), Some(node * 2 + 1));
        assert_eq!(tree.right_child(node), Some(node * 2 + 2));
    }

    // check obsolete node
    assert_eq!(tree.left_child(6), None);
    assert_eq!(tree.right_child(6), None);

    // check siblings of first level
    assert_eq!(tree.left_sibling(1), None);
    assert_eq!(tree.right_sibling(1), Some(2));

    assert_eq!(tree.left_sibling(2), Some(1));
    assert_eq!(tree.right_sibling(2), None);

    // check siblings of leaf nodes
    assert_eq!(tree.left_sibling(7), None);
    assert_eq!(tree.right_sibling(7), Some(8));

    // leaves are not connected to each other because we don't need it for the search primitives
    assert_eq!(tree.left_sibling(8), Some(7));
    assert_eq!(tree.right_sibling(8), None);

    // check siblings of non-existent node
    assert_eq!(tree.left_sibling(13), None);
    assert_eq!(tree.right_sibling(13), None);

    // check parent of leaf nodes
    assert_eq!(tree.parent(7), Some(3));
    assert_eq!(tree.parent(8), Some(3));
    assert_eq!(tree.parent(9), Some(4));
    assert_eq!(tree.parent(10), Some(4));

    // check parent of first level nodes
    assert_eq!(tree.parent(1), Some(0));
    assert_eq!(tree.parent(2), Some(0));

    // check parent of non-existent node
    assert_eq!(tree.parent(13), None);
}

#[test]
fn test_empty_tree_navigation() {
    let bv = BitVec::new();
    let tree = MinMaxTree::excess_tree(&bv, 8);

    assert_eq!(tree.nodes.len(), 0);

    assert_eq!(tree.left_child(0), None);
    assert_eq!(tree.right_child(0), None);
    assert_eq!(tree.left_sibling(1), None);
    assert_eq!(tree.right_sibling(1), None);
    assert_eq!(tree.parent(1), None);
}

#[test]
fn test_simple_fwd_search() {
    let bv = BitVec::from_bits(&[
        1, 1, 1, 1, 1, 1, 1, 1,
        1, 1, 1, 1, 0, 0, 0, 0,
        0, 0, 0, 0, 0, 0, 0, 0,
    ]);

    let tree = MinMaxTree::excess_tree(&bv, 8);

    assert_eq!(tree.nodes.len(), 6);
    assert_eq!(tree.total_excess(0), 0); // tree should be balanced

    // fwd search from the first block (index 3)
    for i in 0..8i64 {
        let block = tree.fwd_search(0, -i - 1);
        assert!(block.is_some(), "block for query {} not found", i);
        assert_eq!(
            block.unwrap().0,
            2,
            "query {} did not return block 2 but {}",
            i,
            block.unwrap().0
        );
    }

    // fwd search from the second block (index 4), searching the closing parenthesis of the
    // enclosing parentheses pair of the first position in the block (i.e. relative excess -1
    // from the end of the block)
    let block = tree.fwd_search(1, -1);
    assert!(block.is_some());
    assert_eq!(block.unwrap().0, 2);

    // fwd search a position that is not in the tree, e.g. -9 from the first block
    let block = tree.fwd_search(0, -9);
    assert!(block.is_none());
}

#[test]
fn test_fwd_search_with_multiple_blocks() {
    let bv = BitVec::from_bits(&[
        1, 1, 1, 1, 1, 1, 1, 1,
        1, 1, 1, 1, 1, 0, 0, 0,
        1, 1, 1, 1, 1, 0, 0, 0,
        0, 1, 1, 0, 0, 0, 0, 0,
        0, 0, 0, 0, 0, 0, 0, 0,
    ]);

    let tree = MinMaxTree::excess_tree(&bv, 8);

    assert_eq!(tree.nodes.len(), 12);
    assert_eq!(tree.total_excess(0), 0); // tree should be balanced

    // fwd search something where the result is not the last node
    let block = tree.fwd_search(2, 1);
    assert!(block.is_some());
    assert_eq!(block.unwrap().0, 3);

    let block = tree.fwd_search(1, -2);
    assert!(block.is_some());
    assert_eq!(block.unwrap().0, 3);
}

#[test]
fn test_fwd_search_relative_offsets() {
    let bv = BitVec::from_bits(&[
        1, 1, 1, 0,
        1, 0, 1, 1, // excess 2
        1, 0, 1, 0, // min excess 0, max excess 1
        0, 0, 0, 0,
    ]);

    let tree = MinMaxTree::excess_tree(&bv, 4);

    // if the relative excess is calculated wrong, it will find block 5, since -1 + 2 = 1,
    // which is the max excess in block 5. Correct calculation of relative excess is -1 - 2 = -3
    let block = tree.fwd_search(0, -1);
    assert!(block.is_some());
    assert_eq!(block.unwrap().0, 3);
}

#[test]
fn test_simple_bwd_search() {
    let bv = BitVec::from_bits(&[
        1, 1, 1, 1, 1, 1, 1, 1,
        1, 1, 1, 1, 0, 0, 0, 0,
        0, 0, 0, 0, 0, 0, 0, 0,
    ]);

    let tree = MinMaxTree::excess_tree(&bv, 8);

    assert_eq!(tree.nodes.len(), 6);
    assert_eq!(tree.total_excess(0), 0); // tree should be balanced

    // bwd search from the last block (index 5)
    for i in 0..8i64 {
        let block = tree.bwd_search(2, -i - 1);
        assert!(block.is_some(), "block for query {} not found", i);
        assert_eq!(
            block.unwrap().0,
            0,
            "query {} did not return block 0 but {}",
            i,
            block.unwrap().0
        );
    }

    // bwd search from the second block, searching the opening parenthesis of the
    // enclosing parentheses pair of the last position in the block (i.e. relative excess -1
    // from the start of the block)
    let block = tree.bwd_search(1, -1);
    assert!(block.is_some());
    assert_eq!(block.unwrap().0, 0);

    // bwd search a position that is not in the tree, e.g. -9 from the last block
    let block = tree.fwd_search(2, -9);
    assert!(block.is_none());
}

#[test]
fn test_bwd_search_with_multiple_blocks() {
    let bv = BitVec::from_bits(&[
        1, 1, 1, 1, 1, 1, 1, 1,
        1, 1, 1, 1, 1, 0, 0, 0,
        1, 1, 1, 1, 1, 0, 0, 0,
        0, 1, 1, 0, 0, 0, 0, 0,
        0, 0, 0, 0, 0, 0, 0, 0,
    ]);

    let tree = MinMaxTree::excess_tree(&bv, 8);

    assert_eq!(tree.nodes.len(), 12);
    assert_eq!(tree.total_excess(0), 0); // tree should be balanced

    // bwd search something where the result is not the first node
    let block = tree.bwd_search(3, -1);
    assert!(block.is_some());
    assert_eq!(block.unwrap().0, 2);

    let block = tree.bwd_search(3, -3);
    assert!(block.is_some());
    assert_eq!(block.unwrap().0, 1);
}

#[test]
fn test_bwd_search_relative_offsets() {
    let bv = BitVec::from_bits(&[
        1, 1, 1, 0,
        1, 0, 1, 1, // excess 2
        1, 0, 1, 0, // min excess 0, max excess 1
        0, 0, 0, 0,
    ]);

    let tree = MinMaxTree::excess_tree(&bv, 4);

    let block = tree.bwd_search(3, -4);
    assert!(block.is_some());
    assert_eq!(block.unwrap().0, 0);
}

#[test]
fn test_incomplete_block() {
    let bv = BitVec::from_bits(&[
        1, 1, 1, 1, 1, 1, 1, 0,
        0, 0, 0, 0, 0, 0,
    ]);

    let tree = MinMaxTree::excess_tree(&bv, 8);

    assert_eq!(tree.nodes.len(), 3);

    let block = tree.fwd_search(0, -1);
    assert!(block.is_some());
    assert_eq!(block.unwrap().0, 1);

    let block = tree.fwd_search(0, -2);
    assert!(block.is_some());
    assert_eq!(block.unwrap().0, 1);
}

#[test]
fn test_single_block() {
    let bv = BitVec::from_bits(&[1, 1, 1, 1, 0, 0, 0, 0]);

    let tree = MinMaxTree::excess_tree(&bv, 8);

    assert_eq!(tree.nodes.len(), 2);
}

#[test]
fn test_leaf_calculation() {
    // test small tree
    let bv = BitVec::from_bits(&vec![0; 1000]);
    let tree = MinMaxTree::excess_tree(&bv, 1200);
    assert_eq!(tree.first_leaf(), 1);

    // test very large tree
    let bv = BitVec::from_bits(&vec![0; 1000]);
    let tree = MinMaxTree::excess_tree(&bv, 4);

    assert_eq!(tree.first_leaf(), 255)
}

#[test]
fn test_relative_excess() {
    // test a tree with 3 layers and different downwards traversals
    let bv = BitVec::from_bits(&[
        1, 1, 1, 1, 1, 1, 1, 1,
        1, 1, 1, 1, 1, 1, 1, 1,
        1, 1, 1, 1, 1, 1, 1, 1,
        0, 0, 0, 0, 0, 0, 0, 0,
        0, 0, 0, 0, 0, 0, 0, 0,
        0, 0, 0, 0, 0, 0, 0, 0,
    ]);

    let tree = MinMaxTree::excess_tree(&bv, 8);

    let block = tree.fwd_search(0, -6);
    assert!(block.is_some());
    assert_eq!(block.unwrap().0, 5);

    // test if the relative excess is still correct (relative to the start of the fifth leaf)
    assert_eq!(block.unwrap().1, -6);

    let block = tree.bwd_search(5, -6);
    assert!(block.is_some());
    assert_eq!(block.unwrap().0, 0);
    assert_eq!(block.unwrap().1, -6);
}

#[test]
fn test_empty_tree_search() {
    // both search operations on an empty tree always return an absent result
    let bv = BitVec::new();
    let tree = MinMaxTree::excess_tree(&bv, 8);

    assert_eq!(tree.fwd_search(0, -1), None);
    assert_eq!(tree.fwd_search(0, 0), None);
    assert_eq!(tree.fwd_search(3, 2), None);
    assert_eq!(tree.bwd_search(0, -1), None);
    assert_eq!(tree.bwd_search(0, 0), None);
    assert_eq!(tree.bwd_search(3, 2), None);
}

#[test]
fn test_search_out_of_achievable_range() {
    // an excess the remaining sequence cannot reach yields an absent result
    let bv = BitVec::from_bits(&[1, 1, 1, 1, 0, 0, 0, 0, 1, 1, 0, 0]);
    let tree = MinMaxTree::excess_tree(&bv, 4);

    assert_eq!(tree.fwd_search(0, 5), None);
    assert_eq!(tree.fwd_search(0, -9), None);
    assert_eq!(tree.bwd_search(2, 7), None);
    assert_eq!(tree.bwd_search(2, -9), None);

    // starting blocks outside the tree find nothing either
    assert_eq!(tree.fwd_search(7, -1), None);
    assert_eq!(tree.bwd_search(7, -1), None);
}

#[test]
fn test_fwd_search_at_right_edge() {
    // six blocks: the last leaf's ascent meets a pruned internal slot; a
    // query for the boundary excess from the last block finds nothing
    let bv = BitVec::from_bits(&[0; 48]);
    let tree = MinMaxTree::excess_tree(&bv, 8);

    assert_eq!(tree.nodes.len(), 13);
    assert_eq!(tree.fwd_search(5, 0), None);
    assert_eq!(tree.fwd_search(5, -1), None);
}

#[test]
fn test_bwd_zero_edge_rule() {
    // the boundary excess at a block's left edge is attainable even when it
    // lies outside the block's recorded interior extremes
    let bv = BitVec::from_bits(&[1, 1, 1, 1, 0, 0, 1, 1]);
    let tree = MinMaxTree::excess_tree(&bv, 4);

    // block 0 records (total 4, min 1, max 4): the re-based excess
    // -4 + 4 = 0 matches only through the edge rule
    let block = tree.bwd_search(1, -4);
    assert_eq!(block, Some((0, -4)));
}

#[test]
fn test_leaf_and_navigation_small_trees() {
    // the boundary sizes: one and two realized leaves
    let bv = BitVec::from_bits(&[1, 0]);
    let tree = MinMaxTree::excess_tree(&bv, 4);
    assert_eq!(tree.nodes.len(), 2);
    assert_eq!(tree.first_leaf(), 1);
    assert!(tree.is_leaf(1));
    assert!(!tree.is_leaf(0));
    assert_eq!(tree.total_excess(0), 0);
    assert_eq!(tree.min_excess(0), 0);
    assert_eq!(tree.max_excess(0), 1);

    let bv = BitVec::from_bits(&[1, 1, 1, 1, 1, 0]);
    let tree = MinMaxTree::excess_tree(&bv, 4);
    assert_eq!(tree.nodes.len(), 3);
    assert_eq!(tree.first_leaf(), 1);
    // the root combines both leaves
    assert_eq!(tree.total_excess(0), 4);
    assert_eq!(tree.min_excess(0), 1);
    assert_eq!(tree.max_excess(0), 5);
}

#[test]
fn test_heap_size() {
    let bv = BitVec::from_bits(&[1, 0, 1, 0, 1, 0, 1, 0]);
    let tree = MinMaxTree::excess_tree(&bv, 2);
    assert_eq!(tree.heap_size(), tree.nodes.len() * std::mem::size_of::<ExcessNode>());
}

/// Running excess after `q` symbols.
fn excess_at(bits: &[u8], q: usize) -> i64 {
    bits[..q].iter().map(|&b| if b != 0 { 1i64 } else { -1i64 }).sum()
}

fn block_total(bits: &[u8], bs: usize, c: usize) -> i64 {
    let lo = (c * bs).min(bits.len());
    let hi = ((c + 1) * bs).min(bits.len());
    excess_at(bits, hi) - excess_at(bits, lo)
}

#[test]
fn test_fwd_search_agrees_with_linear_scan() {
    // for every starting block and a range of sought excesses, a
    // brute-force scan over positions must identify the same block and the
    // same re-based excess as the tree search
    let bits: [u8; 20] = [1, 1, 0, 1, 1, 0, 0, 1, 1, 0, 0, 0, 1, 0, 1, 1, 0, 1, 0, 0];
    let bs: usize = 4;
    let n_blocks = (bits.len() + bs - 1) / bs;
    let bv = BitVec::from_bits(&bits);
    let tree = MinMaxTree::excess_tree(&bv, bs);

    for begin in 0..n_blocks {
        let base = excess_at(&bits, ((begin + 1) * bs).min(bits.len()));
        for x in -8i64..=8 {
            // nearest position strictly right of the end of block `begin`
            // whose excess, measured from that end, equals x
            let mut expected: Option<(usize, i64)> = None;
            for q in ((begin + 1) * bs).min(bits.len()) + 1..=bits.len() {
                if excess_at(&bits, q) - base == x {
                    let c = (q - 1) / bs;
                    let between: i64 = (begin + 1..c).map(|k| block_total(&bits, bs, k)).sum();
                    expected = Some((c, x - between));
                    break;
                }
            }
            assert_eq!(tree.fwd_search(begin, x), expected, "begin {} x {}", begin, x);
        }
    }
}

#[test]
fn test_bwd_search_agrees_with_linear_scan() {
    // the mirror scan: the nearest position at or left of the start of
    // block `begin`, a boundary position belonging to the block at its
    // right (capped at `begin - 1`)
    let bits: [u8; 20] = [1, 1, 0, 1, 1, 0, 0, 1, 1, 0, 0, 0, 1, 0, 1, 1, 0, 1, 0, 0];
    let bs: usize = 4;
    let n_blocks = (bits.len() + bs - 1) / bs;
    let bv = BitVec::from_bits(&bits);
    let tree = MinMaxTree::excess_tree(&bv, bs);

    for begin in 0..n_blocks {
        let base = excess_at(&bits, begin * bs);
        for x in -8i64..=8 {
            let mut expected: Option<(usize, i64)> = None;
            if begin > 0 {
                for q in (0..=begin * bs).rev() {
                    if excess_at(&bits, q) - base == x {
                        let c = (q / bs).min(begin - 1);
                        let after: i64 = (c + 1..begin).map(|k| block_total(&bits, bs, k)).sum();
                        expected = Some((c, x + after));
                        break;
                    }
                }
            }
            assert_eq!(tree.bwd_search(begin, x), expected, "begin {} x {}", begin, x);
        }
    }
}

#[test]
fn test_structural_invariants() {
    let bits: [u8; 24] = [
        1, 1, 1, 0, 0, 1, 1, 1,
        0, 1, 0, 1, 1, 1, 0, 0,
        1, 0, 0, 1, 0, 0, 0, 0,
    ];
    let bv = BitVec::from_bits(&bits);
    let tree = MinMaxTree::excess_tree(&bv, 8);

    // every aggregate satisfies min <= total <= max
    for k in 0..tree.nodes.len() {
        assert!(tree.min_excess(k) <= tree.total_excess(k));
        assert!(tree.total_excess(k) <= tree.max_excess(k));
    }

    // every internal node with two children combines them exactly
    for k in 0..tree.nodes.len() {
        if let (Some(l), Some(r)) = (tree.left_child(k), tree.right_child(k)) {
            assert_eq!(tree.total_excess(k), tree.total_excess(l) + tree.total_excess(r));
            assert_eq!(
                tree.min_excess(k),
                tree.min_excess(l).min(tree.total_excess(l) + tree.min_excess(r))
            );
            assert_eq!(
                tree.max_excess(k),
                tree.max_excess(l).max(tree.total_excess(l) + tree.max_excess(r))
            );
        }
    }

    // an internal node with a single (left) child copies it verbatim
    let bv = BitVec::from_bits(&[0; 40]);
    let tree = MinMaxTree::excess_tree(&bv, 8);
    assert_eq!(tree.nodes.len(), 12);
    assert_eq!(tree.left_child(5), Some(11));
    assert_eq!(tree.right_child(5), None);
    assert_eq!(tree.nodes[5], tree.nodes[11]);
}
