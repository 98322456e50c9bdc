//! Addressing arithmetic for a complete binary tree stored as a flat list:
//!
//! ```text
//!       3
//!   1       5
//! 0   2   4   6  ...
//! ```
//!
//! Every even index is a leaf; every odd index is an internal node whose depth
//! is the number of trailing one bits of its binary representation. The
//! functions here convert between (depth, offset) coordinates and the flat
//! index and derive structural neighbours (parent, sibling, uncle, children),
//! leaf spans, subtree sizes, and the decomposition of a prefix of leaves into
//! roots of maximal fully balanced subtrees. Each contract is stated over the
//! spec functions of [`model`], which also proves the algebraic laws relating
//! them.

pub mod model;

use crate::model::{
    as_ints, co_offset, count_of, depth_of, index_of, left_child_of, left_span_of,
    lemma_child_values, lemma_coordinates_round_trip, lemma_depth_le_64,
    lemma_greatest_pow2_le_unique, lemma_index_of_inverse, lemma_leaf_properties,
    lemma_node_headroom, lemma_roots_of_bounds, offset_of, parent_of, right_child_of,
    right_span_of, roots_of, sibling_of, uncle_of,
};
use vstd::arithmetic::mul::lemma_mul_is_distributive_add_other_way;
use vstd::arithmetic::power2::{
    lemma2_to64, lemma2_to64_rest, lemma_pow2_pos, lemma_pow2_strictly_increases,
    lemma_pow2_unfold, pow2,
};
use vstd::bits::{lemma_u64_pow2_no_overflow, lemma_u64_shl_is_mul, lemma_u64_shr_is_div};
use vstd::prelude::*;

verus! {

/// Returns true when `num` is even: even flat indices are the leaves.
pub fn is_even(num: u64) -> (r: bool)
    ensures
        r == (num % 2 == 0),
{
    proof {
        assert((num & 1) == num % 2) by (bit_vector);
    }
    (num & 1) == 0
}

/// Returns true when `num` is odd: odd flat indices are internal nodes.
pub fn is_odd(num: u64) -> (r: bool)
    ensures
        r == (num % 2 == 1),
{
    proof {
        assert((num & 1) == num % 2) by (bit_vector);
    }
    (num & 1) != 0
}

/// Returns the depth of the node `i`: the number of trailing one bits of `i`.
pub fn depth(i: u64) -> (r: u64)
    ensures
        r == depth_of(i as nat),
        r <= 64,
{
    proof {
        lemma_depth_le_64(i as nat);
    }
    let mut cur: u64 = i;
    let mut d: u64 = 0;
    while cur % 2 == 1
        invariant
            d + depth_of(cur as nat) == depth_of(i as nat),
            depth_of(i as nat) <= 64,
        decreases cur,
    {
        proof {
            assert(cur >> 1u64 == cur / 2) by (bit_vector);
        }
        cur = cur >> 1;
        d = d + 1;
    }
    d
}

/// Returns the flat index of the node at the given depth and offset.
///
/// The depth must stay below 63 and the resulting index must fit in 64 bits;
/// larger coordinates have no representable node.
pub fn index(depth: u64, offset: u64) -> (r: u64)
    requires
        depth < 63,
        index_of(depth as nat, offset as nat) <= u64::MAX,
    ensures
        r == index_of(depth as nat, offset as nat),
        depth_of(r as nat) == depth,
        offset_of(r as nat) == offset,
{
    let s: u64 = depth + 1;
    proof {
        lemma_pow2_pos(depth as nat);
        lemma_pow2_pos(s as nat);
        lemma_pow2_strictly_increases(depth as nat, s as nat);
        lemma_u64_pow2_no_overflow(depth as nat);
        lemma_u64_pow2_no_overflow(s as nat);
        lemma_u64_shl_is_mul(1u64, depth);
        lemma_u64_shl_is_mul(1u64, s);
        // index_of(depth, offset) <= u64::MAX bounds the shifted offset.
        lemma_u64_shl_is_mul(offset, s);
        vstd::bits::lemma_u64_mul_pow2_le_max_iff_max_shr(offset, s, u64::MAX);
    }
    let hi: u64 = offset << s;
    let lo: u64 = (1u64 << depth) - 1;
    proof {
        assert((offset << s) | lo == lo + (offset << s)) by (bit_vector)
            requires
                s < 64u64,
                lo < (1u64 << s),
                offset <= (u64::MAX >> s),
        ;
        lemma_coordinates_round_trip(depth as nat, offset as nat);
    }
    hi | lo
}

/// Returns the offset of the node `i`, its depth already known: `depth` must
/// be `depth_of(i)`.
///
/// For odd `i` the depth must stay below 63 so that the shift by `depth + 1`
/// is defined.
pub fn offset_with_depth(i: u64, depth: u64) -> (r: u64)
    requires
        depth == depth_of(i as nat),
        i % 2 == 1 ==> depth < 63,
    ensures
        r == offset_of(i as nat),
{
    if is_even(i) {
        proof {
            lemma2_to64();
        }
        i / 2
    } else {
        proof {
            lemma_u64_shr_is_div(i, (depth + 1) as u64);
        }
        i >> (depth + 1)
    }
}

/// Returns the offset of the node `i`: its position among the nodes of the
/// same depth, left to right.
pub fn offset(i: u64) -> (r: u64)
    requires
        i % 2 == 1 ==> depth_of(i as nat) < 63,
    ensures
        r == offset_of(i as nat),
{
    let d = depth(i);
    offset_with_depth(i, d)
}

/// Returns the parent of the node `i`, its depth already known: `depth` must
/// be `depth_of(i)`.
///
/// The parent must be representable: its depth stays below 63 and its index
/// fits in 64 bits.
pub fn parent_with_depth(i: u64, depth: u64) -> (r: u64)
    requires
        depth == depth_of(i as nat),
        depth < 62,
        parent_of(i as nat) <= u64::MAX,
    ensures
        r == parent_of(i as nat),
        depth_of(r as nat) == depth + 1,
        offset_of(r as nat) == offset_of(i as nat) / 2,
{
    let o = offset_with_depth(i, depth);
    proof {
        assert(o >> 1u64 == o / 2) by (bit_vector);
    }
    index(depth + 1, o >> 1)
}

/// Returns the parent of the node `i`: the node one depth higher whose
/// subtree contains `i`.
pub fn parent(i: u64) -> (r: u64)
    requires
        depth_of(i as nat) < 62,
        parent_of(i as nat) <= u64::MAX,
    ensures
        r == parent_of(i as nat),
        depth_of(r as nat) == depth_of(i as nat) + 1,
        offset_of(r as nat) == offset_of(i as nat) / 2,
{
    let d = depth(i);
    parent_with_depth(i, d)
}

/// Returns the sibling of the node `i`, its depth already known: `depth` must
/// be `depth_of(i)`.
///
/// The sibling must fit in 64 bits (it lies one subtree width to the right
/// when `i` is the left node of its pair).
pub fn sibling_with_depth(i: u64, depth: u64) -> (r: u64)
    requires
        depth == depth_of(i as nat),
        i % 2 == 1 ==> depth < 63,
        sibling_of(i as nat) <= u64::MAX,
    ensures
        r == sibling_of(i as nat),
        depth_of(r as nat) == depth,
        offset_of(r as nat) == co_offset(offset_of(i as nat)),
{
    let o = offset(i);
    proof {
        assert(o % 2 == 0 ==> (o ^ 1) == o + 1) by (bit_vector);
        assert(o % 2 == 1 ==> (o ^ 1) == o - 1) by (bit_vector);
        assert(o ^ 1 == co_offset(o as nat));
    }
    index(depth, o ^ 1)
}

/// Returns the sibling of the node `i`: the other node at the same depth
/// under the same parent.
pub fn sibling(i: u64) -> (r: u64)
    requires
        i % 2 == 1 ==> depth_of(i as nat) < 63,
        sibling_of(i as nat) <= u64::MAX,
    ensures
        r == sibling_of(i as nat),
        depth_of(r as nat) == depth_of(i as nat),
        offset_of(r as nat) == co_offset(offset_of(i as nat)),
{
    let d = depth(i);
    sibling_with_depth(i, d)
}

/// Returns the uncle of the node `i`, its depth already known: `depth` must
/// be `depth_of(i)`.
///
/// Both the parent and the uncle must be representable in 64 bits.
pub fn uncle_with_depth(i: u64, depth: u64) -> (r: u64)
    requires
        depth == depth_of(i as nat),
        depth < 62,
        parent_of(i as nat) <= u64::MAX,
        uncle_of(i as nat) <= u64::MAX,
    ensures
        r == uncle_of(i as nat),
        depth_of(r as nat) == depth + 1,
{
    let p = parent_with_depth(i, depth);
    sibling_with_depth(p, depth + 1)
}

/// Returns the uncle of the node `i`: the sibling of its parent.
pub fn uncle(i: u64) -> (r: u64)
    requires
        depth_of(i as nat) < 62,
        parent_of(i as nat) <= u64::MAX,
        uncle_of(i as nat) <= u64::MAX,
    ensures
        r == uncle_of(i as nat),
        depth_of(r as nat) == depth_of(i as nat) + 1,
{
    let d = depth(i);
    uncle_with_depth(i, d)
}

/// Returns both children of the node `i`, its depth already known: `depth`
/// must be `depth_of(i)`. Leaves (even `i`) have no children.
pub fn children_with_depth(i: u64, depth: u64) -> (r: Option<(u64, u64)>)
    requires
        depth == depth_of(i as nat),
        i % 2 == 1 ==> depth < 63,
    ensures
        i % 2 == 0 ==> r is None,
        i % 2 == 1 ==> (r matches Some(c) && c.0 == left_child_of(i as nat) && c.1
            == right_child_of(i as nat)),
{
    if is_even(i) {
        None
    } else {
        proof {
            lemma_children_in_range(i as nat);
        }
        let o2 = offset_with_depth(i, depth) * 2;
        Some((index(depth - 1, o2), index(depth - 1, o2 + 1)))
    }
}

/// Returns both children of the node `i`. Leaves (even `i`) have no children.
pub fn children(i: u64) -> (r: Option<(u64, u64)>)
    requires
        i % 2 == 1 ==> depth_of(i as nat) < 63,
    ensures
        i % 2 == 0 ==> r is None,
        i % 2 == 1 ==> (r matches Some(c) && c.0 == left_child_of(i as nat) && c.1
            == right_child_of(i as nat)),
{
    let d = depth(i);
    children_with_depth(i, d)
}

/// Returns only the left child of the node `i`, its depth already known:
/// `depth` must be `depth_of(i)`. Leaves (even `i`) have no children.
pub fn left_child_with_depth(i: u64, depth: u64) -> (r: Option<u64>)
    requires
        depth == depth_of(i as nat),
        i % 2 == 1 ==> depth < 63,
    ensures
        i % 2 == 0 ==> r is None,
        i % 2 == 1 ==> (r matches Some(c) && c == left_child_of(i as nat)),
{
    if is_even(i) {
        None
    } else {
        let o = offset_with_depth(i, depth);
        proof {
            lemma_children_in_range(i as nat);
            lemma2_to64();
            lemma_u64_shl_is_mul(o, 1u64);
        }
        Some(index(depth - 1, o << 1u64))
    }
}

/// Returns only the left child of the node `i`. Leaves (even `i`) have no
/// children.
pub fn left_child(i: u64) -> (r: Option<u64>)
    requires
        i % 2 == 1 ==> depth_of(i as nat) < 63,
    ensures
        i % 2 == 0 ==> r is None,
        i % 2 == 1 ==> (r matches Some(c) && c == left_child_of(i as nat)),
{
    let d = depth(i);
    left_child_with_depth(i, d)
}

/// Returns only the right child of the node `i`, its depth already known:
/// `depth` must be `depth_of(i)`. Leaves (even `i`) have no children.
pub fn right_child_with_depth(i: u64, depth: u64) -> (r: Option<u64>)
    requires
        depth == depth_of(i as nat),
        i % 2 == 1 ==> depth < 63,
    ensures
        i % 2 == 0 ==> r is None,
        i % 2 == 1 ==> (r matches Some(c) && c == right_child_of(i as nat)),
{
    if is_even(i) {
        None
    } else {
        let o = offset_with_depth(i, depth);
        proof {
            lemma_children_in_range(i as nat);
            lemma2_to64();
            lemma_u64_shl_is_mul(o, 1u64);
        }
        Some(index(depth - 1, (o << 1u64) + 1))
    }
}

/// Returns only the right child of the node `i`. Leaves (even `i`) have no
/// children.
pub fn right_child(i: u64) -> (r: Option<u64>)
    requires
        i % 2 == 1 ==> depth_of(i as nat) < 63,
    ensures
        i % 2 == 0 ==> r is None,
        i % 2 == 1 ==> (r matches Some(c) && c == right_child_of(i as nat)),
{
    let d = depth(i);
    right_child_with_depth(i, d)
}

/// Both children of an odd 64-bit node lie within 64 bits themselves, as does
/// twice its offset.
proof fn lemma_children_in_range(i: nat)
    requires
        i % 2 == 1,
        i <= u64::MAX,
        depth_of(i) < 63,
    ensures
        depth_of(i) >= 1,
        2 * offset_of(i) + 1 < pow2(63),
        pow2(63) <= u64::MAX,
        left_child_of(i) == i - pow2((depth_of(i) - 1) as nat),
        right_child_of(i) == i + pow2((depth_of(i) - 1) as nat),
        right_child_of(i) <= u64::MAX,
{
    let d = depth_of(i);
    lemma_child_values(i);
    lemma_node_headroom(i);
    lemma_pow2_strictly_increases((d - 1) as nat, d);
    let e = (63 - d) as nat;
    if e < 62 {
        lemma_pow2_strictly_increases(e, 62);
    }
    lemma_pow2_unfold(63);
    lemma2_to64_rest();
}

/// Returns the rightmost leaf index the subtree rooted at `i` spans, the
/// depth of `i` already known: `depth` must be `depth_of(i)`.
///
/// For odd `i` the subtree's width, two steps past the span, must still fit
/// in 64 bits.
pub fn right_span_with_depth(i: u64, depth: u64) -> (r: u64)
    requires
        depth == depth_of(i as nat),
        i % 2 == 1 ==> depth < 63,
        i % 2 == 1 ==> right_span_of(i as nat) + 2 <= u64::MAX,
    ensures
        r == right_span_of(i as nat),
{
    if depth == 0 {
        proof {
            lemma_leaf_properties(i as nat);
        }
        i
    } else {
        let o = offset_with_depth(i, depth);
        proof {
            lemma_span_arithmetic(i as nat);
        }
        (o + 1) * (2 << depth) - 2
    }
}

/// Returns the rightmost leaf index the subtree rooted at `i` spans.
pub fn right_span(i: u64) -> (r: u64)
    requires
        i % 2 == 1 ==> depth_of(i as nat) < 63,
        i % 2 == 1 ==> right_span_of(i as nat) + 2 <= u64::MAX,
    ensures
        r == right_span_of(i as nat),
{
    let d = depth(i);
    right_span_with_depth(i, d)
}

/// Returns the leftmost leaf index the subtree rooted at `i` spans, the depth
/// of `i` already known: `depth` must be `depth_of(i)`.
pub fn left_span_with_depth(i: u64, depth: u64) -> (r: u64)
    requires
        depth == depth_of(i as nat),
        i % 2 == 1 ==> depth < 63,
    ensures
        r == left_span_of(i as nat),
{
    if depth == 0 {
        proof {
            lemma_leaf_properties(i as nat);
        }
        i
    } else {
        let o = offset_with_depth(i, depth);
        proof {
            lemma_span_arithmetic(i as nat);
        }
        o * (2 << depth)
    }
}

/// Returns the leftmost leaf index the subtree rooted at `i` spans.
pub fn left_span(i: u64) -> (r: u64)
    requires
        i % 2 == 1 ==> depth_of(i as nat) < 63,
    ensures
        r == left_span_of(i as nat),
{
    let d = depth(i);
    left_span_with_depth(i, d)
}

/// Returns the leftmost and rightmost leaf indices the subtree rooted at `i`
/// spans, the depth of `i` already known: `depth` must be `depth_of(i)`.
pub fn spans_with_depth(i: u64, depth: u64) -> (r: (u64, u64))
    requires
        depth == depth_of(i as nat),
        i % 2 == 1 ==> depth < 63,
        i % 2 == 1 ==> right_span_of(i as nat) + 2 <= u64::MAX,
    ensures
        r.0 == left_span_of(i as nat),
        r.1 == right_span_of(i as nat),
{
    (left_span_with_depth(i, depth), right_span_with_depth(i, depth))
}

/// Returns the leftmost and rightmost leaf indices the subtree rooted at `i`
/// spans.
pub fn spans(i: u64) -> (r: (u64, u64))
    requires
        i % 2 == 1 ==> depth_of(i as nat) < 63,
        i % 2 == 1 ==> right_span_of(i as nat) + 2 <= u64::MAX,
    ensures
        r.0 == left_span_of(i as nat),
        r.1 == right_span_of(i as nat),
{
    let d = depth(i);
    spans_with_depth(i, d)
}

/// The arithmetic behind the span formulas of an odd 64-bit node: the left
/// span is the offset scaled by the subtree width `pow2(depth + 1)` and never
/// exceeds `i`, and the right span sits one width further, minus two.
proof fn lemma_span_arithmetic(i: nat)
    requires
        i % 2 == 1,
        i <= u64::MAX,
        depth_of(i) < 63,
    ensures
        depth_of(i) >= 1,
        (2u64 << (depth_of(i) as u64)) == pow2(depth_of(i) + 1),
        offset_of(i) < pow2(62),
        pow2(62) < u64::MAX,
        left_span_of(i) == offset_of(i) * (pow2(depth_of(i) + 1) as int),
        0 <= left_span_of(i) <= i,
        (offset_of(i) + 1) * (pow2(depth_of(i) + 1) as int) == right_span_of(i) + 2,
        right_span_of(i) >= 2,
{
    let d = depth_of(i);
    let o = offset_of(i);
    let bp = pow2(d + 1) as int;
    lemma_index_of_inverse(i);
    lemma_pow2_pos(d);
    lemma_node_headroom(i);
    let e = (63 - d) as nat;
    if e < 62 {
        lemma_pow2_strictly_increases(e, 62);
    }
    lemma_pow2_unfold(d + 1);
    lemma2_to64();
    lemma2_to64_rest();
    lemma_u64_pow2_no_overflow(d + 1);
    lemma_u64_shl_is_mul(2u64, d as u64);
    lemma_mul_is_distributive_add_other_way(bp, o as int, 1);
    lemma_pow2_strictly_increases(1, d + 1);
}

/// Returns how many flat indices the subtree rooted at a node of the given
/// depth contains: `pow2(depth + 1) - 1`, whatever the node.
pub fn count_with_depth(_i: u64, depth: u64) -> (r: u64)
    requires
        depth < 63,
    ensures
        r == pow2(depth as nat + 1) - 1,
{
    proof {
        lemma_pow2_pos(depth as nat);
        lemma_pow2_unfold(depth as nat + 1);
        lemma_u64_pow2_no_overflow(depth as nat + 1);
        lemma_u64_shl_is_mul(2u64, depth);
    }
    (2 << depth) - 1
}

/// Returns how many flat indices the subtree rooted at `i` contains.
pub fn count(i: u64) -> (r: u64)
    requires
        depth_of(i as nat) < 63,
    ensures
        r == count_of(i as nat),
{
    let d = depth(i);
    count_with_depth(i, d)
}

/// Returns the roots of all the maximal fully balanced subtrees whose leaf
/// spans, taken together, tile exactly the leaves left of the flat index `i`,
/// in ascending order.
///
/// `i` must be even: a prefix of the flat sequence can only end on a leaf
/// boundary.
pub fn full_roots(i: u64) -> (r: Vec<u64>)
    requires
        i % 2 == 0,
    ensures
        as_ints(r@) == roots_of((i / 2) as nat, 0),
        forall|j: int, k: int| 0 <= j < k < r@.len() ==> r@[j] < r@[k],
{
    proof {
        assert(i >> 1u64 == i / 2) by (bit_vector);
    }
    let mut result: Vec<u64> = Vec::with_capacity(64);
    let mut tmp: u64 = i >> 1;
    let mut offset: u64 = 0;
    let ghost n0: nat = (i / 2) as nat;
    while tmp != 0
        invariant
            tmp <= n0,
            2 * n0 <= u64::MAX,
            offset == 2 * (n0 - tmp),
            as_ints(result@) + roots_of(tmp as nat, (n0 - tmp) as nat) == roots_of(n0, 0),
        decreases tmp,
    {
        let ghost base: nat = (n0 - tmp) as nat;
        let ghost prefix: Seq<int> = as_ints(result@);
        let mut factor: u64 = 1;
        let ghost mut e: nat = 0;
        proof {
            lemma2_to64();
        }
        while factor * 2 <= tmp
            invariant
                tmp <= n0,
                2 * n0 <= u64::MAX,
                1 <= factor <= tmp,
                factor == pow2(e),
            decreases tmp - factor,
        {
            proof {
                lemma_pow2_unfold(e + 1);
            }
            factor = factor * 2;
            proof {
                e = e + 1;
            }
        }
        let ghost head: int = 2 * (base as int) + factor - 1;
        proof {
            lemma_greatest_pow2_le_unique(tmp as nat, e);
            assert(roots_of(tmp as nat, base) == seq![head] + roots_of(
                (tmp - factor) as nat,
                base + factor as nat,
            ));
        }
        result.push(offset + factor - 1);
        proof {
            assert(as_ints(result@) =~= prefix.push(head));
            assert(prefix.push(head) + roots_of((tmp - factor) as nat, base + factor as nat)
                =~= prefix + roots_of(tmp as nat, base));
        }
        offset = offset + 2 * factor;
        tmp = tmp - factor;
    }
    proof {
        assert(as_ints(result@) + roots_of(0, n0) =~= as_ints(result@));
        lemma_roots_of_bounds(n0, 0);
        assert forall|j: int, k: int|
            0 <= j < k < result@.len() implies result@[j] < result@[k] by {
            assert(as_ints(result@)[j] == result@[j] as int);
            assert(as_ints(result@)[k] == result@[k] as int);
        }
    }
    result
}

} // verus!
