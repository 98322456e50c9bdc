use flat_tree::{
    children, children_with_depth, count, count_with_depth, depth, full_roots, index, is_even,
    is_odd, left_child, left_child_with_depth, left_span, left_span_with_depth, offset,
    offset_with_depth, parent, parent_with_depth, right_child, right_child_with_depth, right_span,
    right_span_with_depth, sibling, sibling_with_depth, spans, spans_with_depth, uncle,
    uncle_with_depth,
};

#[test]
fn test_is_even() {
    assert_eq!(is_even(0), true);
    assert_eq!(is_even(1), false);
    assert_eq!(is_even(2), true);
    assert_eq!(is_even(3), false);
}

#[test]
fn test_is_odd() {
    assert_eq!(is_odd(0), false);
    assert_eq!(is_odd(1), true);
    assert_eq!(is_odd(2), false);
    assert_eq!(is_odd(3), true);
}

#[test]
fn test_parent_gt_int32() {
    assert_eq!(parent(10_000_000_000), 10_000_000_001);
}

#[test]
fn test_child_to_parent_to_child() {
    let mut child = 0;
    for _ in 0..50 {
        child = parent(child)
    }
    assert_eq!(child, 1125899906842623);
    for _ in 0..50 {
        child = left_child(child).expect("no valid number returned");
    }
    assert_eq!(child, 0);
}

#[test]
fn test_index() {
    assert_eq!(index(0, 0), 0);
    assert_eq!(index(0, 1), 2);
    assert_eq!(index(0, 2), 4);
    assert_eq!(index(1, 0), 1);
    assert_eq!(index(1, 1), 5);
    assert_eq!(index(1, 2), 9);
    assert_eq!(index(1, 3), 13);
    assert_eq!(index(2, 0), 3);
    assert_eq!(index(2, 1), 11);
    assert_eq!(index(2, 2), 19);
    assert_eq!(index(3, 0), 7);
    assert_eq!(index(3, 1), 23);
}

#[test]
fn test_depth() {
    assert_eq!(depth(0), 0);
    assert_eq!(depth(1), 1);
    assert_eq!(depth(2), 0);
    assert_eq!(depth(3), 2);
    assert_eq!(depth(4), 0);
}

#[test]
fn test_offset() {
    assert_eq!(offset(0), 0);
    assert_eq!(offset(1), 0);
    assert_eq!(offset(2), 1);
    assert_eq!(offset(3), 0);
    assert_eq!(offset(4), 2);
    assert_eq!(offset_with_depth(0, 0), 0);
    assert_eq!(offset_with_depth(1, 1), 0);
    assert_eq!(offset_with_depth(2, 0), 1);
    assert_eq!(offset_with_depth(3, 2), 0);
    assert_eq!(offset_with_depth(4, 0), 2);
}

#[test]
fn test_parent() {
    assert_eq!(parent(0), 1);
    assert_eq!(parent(2), 1);
    assert_eq!(parent(1), 3);
    assert_eq!(parent_with_depth(0, 0), 1);
    assert_eq!(parent_with_depth(2, 0), 1);
    assert_eq!(parent_with_depth(1, 1), 3);
}

#[test]
fn test_sibling() {
    assert_eq!(sibling(0), 2);
    assert_eq!(sibling(2), 0);
    assert_eq!(sibling(1), 5);
    assert_eq!(sibling(5), 1);
    assert_eq!(sibling_with_depth(0, 0), 2);
    assert_eq!(sibling_with_depth(1, 1), 5);
}

#[test]
fn test_uncle() {
    assert_eq!(uncle(0), 5);
    assert_eq!(uncle(2), 5);
    assert_eq!(uncle(4), 1);
    assert_eq!(uncle(1), 11);
    assert_eq!(uncle_with_depth(0, 0), 5);
    assert_eq!(uncle_with_depth(1, 1), 11);
}

#[test]
fn test_children() {
    assert_eq!(children(0), None);
    assert_eq!(children(1), Some((0, 2)));
    assert_eq!(children(3), Some((1, 5)));
    assert_eq!(children(9), Some((8, 10)));
    assert_eq!(children_with_depth(0, 0), None);
    assert_eq!(children_with_depth(3, 2), Some((1, 5)));
}

#[test]
fn test_left_child() {
    assert_eq!(left_child(0), None);
    assert_eq!(left_child(1), Some(0));
    assert_eq!(left_child(3), Some(1));
    assert_eq!(left_child_with_depth(0, 0), None);
    assert_eq!(left_child_with_depth(3, 2), Some(1));
}

#[test]
fn test_right_child() {
    assert_eq!(right_child(0), None);
    assert_eq!(right_child(1), Some(2));
    assert_eq!(right_child(3), Some(5));
    assert_eq!(right_child_with_depth(0, 0), None);
    assert_eq!(right_child_with_depth(3, 2), Some(5));
}

#[test]
fn test_spans() {
    assert_eq!(spans(0), (0, 0));
    assert_eq!(spans(1), (0, 2));
    assert_eq!(spans(3), (0, 6));
    assert_eq!(spans(23), (16, 30));
    assert_eq!(spans(27), (24, 30));
    assert_eq!(spans_with_depth(23, 3), (16, 30));
    assert_eq!(left_span(0), 0);
    assert_eq!(left_span(1), 0);
    assert_eq!(left_span(3), 0);
    assert_eq!(left_span(23), 16);
    assert_eq!(left_span(27), 24);
    assert_eq!(left_span_with_depth(27, 2), 24);
    assert_eq!(right_span(0), 0);
    assert_eq!(right_span(1), 2);
    assert_eq!(right_span(3), 6);
    assert_eq!(right_span(23), 30);
    assert_eq!(right_span(27), 30);
    assert_eq!(right_span_with_depth(27, 2), 30);
}

#[test]
fn test_count() {
    assert_eq!(count(0), 1);
    assert_eq!(count(1), 3);
    assert_eq!(count(3), 7);
    assert_eq!(count(5), 3);
    assert_eq!(count(23), 15);
    assert_eq!(count(27), 7);
    assert_eq!(count_with_depth(23, 3), 15);
    assert_eq!(count_with_depth(27, 2), 7);
}

#[test]
fn test_full_roots() {
    assert_eq!(full_roots(0), Vec::<u64>::new());
    assert_eq!(full_roots(2), vec![0]);
    assert_eq!(full_roots(8), vec![3]);
    assert_eq!(full_roots(20), vec![7, 17]);
    assert_eq!(full_roots(18), vec![7, 16]);
    assert_eq!(full_roots(16), vec![7]);
}

// Round trip between (depth, offset) coordinates and the flat index, on a
// grid of small coordinates.
#[test]
fn test_round_trip() {
    for d in 0..12u64 {
        for o in 0..12u64 {
            let i = index(d, o);
            assert_eq!(depth(i), d);
            assert_eq!(offset_with_depth(i, d), o);
            assert_eq!(offset(i), o);
        }
    }
}

// The sibling of the sibling of a node is the node itself.
#[test]
fn test_sibling_involution() {
    for i in 0..1000u64 {
        assert_eq!(sibling(sibling(i)), i);
    }
}

// Every internal node is the parent of both of its children.
#[test]
fn test_parent_child_consistency() {
    for k in 0..500u64 {
        let i = 2 * k + 1;
        let (l, r) = children(i).expect("odd nodes have children");
        assert_eq!(parent(l), i);
        assert_eq!(parent(r), i);
        assert_eq!(left_child(i), Some(l));
        assert_eq!(right_child(i), Some(r));
    }
}

// Every even index is a leaf: depth 0, a span of just itself, count 1.
#[test]
fn test_leaf_properties() {
    for k in 0..500u64 {
        let i = 2 * k;
        assert_eq!(depth(i), 0);
        assert_eq!(left_span(i), i);
        assert_eq!(right_span(i), i);
        assert_eq!(spans(i), (i, i));
        assert_eq!(count(i), 1);
        assert!(children(i).is_none());
    }
}

// The node count of a subtree depends on the depth alone:
// count(i) == (1 << (depth(i) + 1)) - 1.
#[test]
fn test_count_formula() {
    for i in 0..1000u64 {
        assert_eq!(count(i), (1u64 << (depth(i) + 1)) - 1);
    }
}

// The roots of a prefix decomposition come in ascending order, cover as many
// leaves as the prefix holds, and the largest subtree comes first.
#[test]
fn test_full_roots_tile_prefix() {
    for k in 0..300u64 {
        let i = 2 * k;
        let roots = full_roots(i);
        let mut leaves = 0u64;
        let mut expected_left = 0u64;
        for w in roots.windows(2) {
            assert!(w[0] < w[1]);
        }
        for &r in roots.iter() {
            assert_eq!(left_span(r), expected_left);
            expected_left = right_span(r) + 2;
            leaves += (count(r) + 1) / 2;
        }
        assert_eq!(leaves, k);
    }
}

// Large inputs: the arithmetic stays exact well past 32 bits.
#[test]
fn test_large_values() {
    assert_eq!(parent(10_000_000_000), 10_000_000_001);
    assert_eq!(sibling(10_000_000_000), 10_000_000_002);
    assert_eq!(depth(1125899906842623), 50);
    assert_eq!(offset(1125899906842623), 0);
    assert_eq!(count(1125899906842623), (1u64 << 51) - 1);
    let max_even = u64::MAX - 1;
    assert_eq!(depth(max_even), 0);
    assert_eq!(left_span(max_even), max_even);
    assert_eq!(right_span(max_even), max_even);
    assert_eq!(count(max_even), 1);
    assert_eq!(offset(max_even), max_even / 2);
}
