//! Mathematical model of the flat binary-tree index scheme.
//!
//! Nodes of a complete binary tree are numbered in one flat sequence
//! `0 1 2 3 ...` in which every even index is a leaf and every odd index an
//! internal node. A node's depth is the number of trailing one bits of its
//! index; its offset is its position among the nodes of the same depth, left
//! to right. The spec functions here define those coordinates and the derived
//! relations over unbounded integers; the lemmas prove that the coordinate
//! pair and the flat index determine one another.

use vstd::arithmetic::div_mod::{
    lemma_add_mod_noop, lemma_div_denominator, lemma_div_multiples_vanish,
    lemma_fundamental_div_mod, lemma_fundamental_div_mod_converse, lemma_mod_multiples_basic,
    lemma_mod_self_0, lemma_small_mod,
};
use vstd::arithmetic::mul::{
    lemma_mul_inequality, lemma_mul_is_associative, lemma_mul_is_commutative,
    lemma_mul_is_distributive_add_other_way, lemma_mul_is_distributive_sub_other_way,
    lemma_mul_nonnegative,
};
use vstd::arithmetic::power2::{
    lemma2_to64, lemma2_to64_rest, lemma_pow2_adds, lemma_pow2_pos, lemma_pow2_strictly_increases,
    lemma_pow2_unfold, pow2,
};
use vstd::prelude::*;

verus! {

/// Depth of the node with flat index `i`: the number of trailing one bits of
/// `i` in binary. Leaves (even indices) have depth 0.
pub open spec fn depth_of(i: nat) -> nat
    decreases i,
{
    if i % 2 == 0 {
        0
    } else {
        1 + depth_of(i / 2)
    }
}

/// Flat index of the node at depth `d` and offset `o`: `o` shifted above `d`
/// trailing one bits.
pub open spec fn index_of(d: nat, o: nat) -> int {
    o * pow2(d + 1) + pow2(d) - 1
}

/// Offset of the node with flat index `i`: its position among the nodes of
/// depth `depth_of(i)`, left to right.
pub open spec fn offset_of(i: nat) -> nat {
    i / pow2(depth_of(i) + 1)
}

/// The index and its coordinate pair determine each other. Splitting
/// `index_of(d, o)` by `pow2(d + 1)` recovers `o` as the quotient, with the
/// `d` trailing one bits as the remainder.
pub proof fn lemma_index_split(d: nat, o: nat)
    ensures
        index_of(d, o) >= pow2(d) - 1,
        index_of(d, o) % (pow2(d + 1) as int) == pow2(d) - 1,
        index_of(d, o) / (pow2(d + 1) as int) == o,
{
    lemma_pow2_pos(d);
    lemma_pow2_pos(d + 1);
    lemma_pow2_strictly_increases(d, d + 1);
    lemma_fundamental_div_mod_converse(
        index_of(d, o),
        pow2(d + 1) as int,
        o as int,
        pow2(d) - 1,
    );
    lemma_mul_nonnegative(o as int, pow2(d + 1) as int);
}

/// The node at depth `d` and offset `o` indeed has depth `d`: `index_of(d, o)`
/// ends in exactly `d` one bits.
pub proof fn lemma_depth_of_index(d: nat, o: nat)
    ensures
        index_of(d, o) >= 0,
        depth_of(index_of(d, o) as nat) == d,
    decreases d,
{
    lemma_pow2_pos(d);
    if d == 0 {
        lemma2_to64();
        assert(index_of(0, o) == o * 2);
        lemma_mod_multiples_basic(o as int, 2);
        assert((o * 2) % 2 == 0);
    } else {
        lemma_pow2_unfold(d);
        lemma_pow2_unfold(d + 1);
        lemma_pow2_pos((d - 1) as nat);
        let w = index_of((d - 1) as nat, o);
        lemma_depth_of_index((d - 1) as nat, o);
        // o * pow2(d + 1) == 2 * (o * pow2(d))
        lemma_mul_is_associative(o as int, 2, pow2(d) as int);
        lemma_mul_is_associative(2, o as int, pow2(d) as int);
        // o * pow2(d) == 2 * (o * pow2(d - 1))
        lemma_mul_is_associative(o as int, 2, pow2((d - 1) as nat) as int);
        lemma_mul_is_associative(2, o as int, pow2((d - 1) as nat) as int);
        assert(index_of(d, o) == 2 * w + 1);
        lemma_fundamental_div_mod_converse(index_of(d, o), 2, w, 1);
        assert(index_of(d, o) % 2 == 1);
        assert(index_of(d, o) / 2 == w);
        assert(depth_of(index_of(d, o) as nat) == 1 + depth_of(w as nat));
    }
}

/// Round trip from coordinates to index and back: the node constructed at
/// depth `d` and offset `o` reports exactly those coordinates.
pub proof fn lemma_coordinates_round_trip(d: nat, o: nat)
    ensures
        index_of(d, o) >= 0,
        depth_of(index_of(d, o) as nat) == d,
        offset_of(index_of(d, o) as nat) == o,
{
    lemma_depth_of_index(d, o);
    lemma_index_split(d, o);
}

/// Round trip from index to coordinates and back: every flat index is the
/// index of its own depth and offset, i.e.
/// `i == offset_of(i) * pow2(depth_of(i) + 1) + pow2(depth_of(i)) - 1`.
pub proof fn lemma_index_of_inverse(i: nat)
    ensures
        index_of(depth_of(i), offset_of(i)) == i,
    decreases i,
{
    lemma2_to64();
    if i % 2 == 0 {
        // depth 0: the offset is i / 2 and the index is twice that.
        lemma_fundamental_div_mod(i as int, 2);
        assert(offset_of(i) == i / 2);
        assert(index_of(0, (i / 2) as nat) == (i / 2) * 2);
    } else {
        let j = i / 2;
        lemma_fundamental_div_mod(i as int, 2);
        assert(i == 2 * j + 1);
        lemma_index_of_inverse(j);
        let dj = depth_of(j);
        let oj = offset_of(j);
        assert(depth_of(i) == 1 + dj);
        // i / pow2(dj + 2) == (i / 2) / pow2(dj + 1) == oj
        lemma_pow2_pos(dj + 1);
        lemma_pow2_adds(1, dj + 1);
        lemma_div_denominator(i as int, 2, pow2(dj + 1) as int);
        assert(offset_of(i) == oj);
        // index_of(dj + 1, oj) == 2 * index_of(dj, oj) + 1 == 2 * j + 1 == i
        lemma_pow2_unfold(dj + 1);
        lemma_pow2_unfold(dj + 2);
        lemma_mul_is_associative(oj as int, 2, pow2(dj + 1) as int);
        lemma_mul_is_associative(2, oj as int, pow2(dj + 1) as int);
        assert(index_of(dj + 1, oj) == 2 * index_of(dj, oj) + 1);
    }
}

/// A node of depth `d` has at least `d` trailing one bits worth of weight:
/// `pow2(depth_of(i)) <= i + 1`.
pub proof fn lemma_depth_weight(i: nat)
    ensures
        pow2(depth_of(i)) <= i + 1,
    decreases i,
{
    lemma2_to64();
    if i % 2 == 0 {
    } else {
        let j = i / 2;
        lemma_depth_weight(j);
        lemma_fundamental_div_mod(i as int, 2);
        lemma_pow2_unfold(1 + depth_of(j));
    }
}

/// No 64-bit index has more than 64 trailing one bits.
pub proof fn lemma_depth_le_64(i: nat)
    requires
        i <= u64::MAX,
    ensures
        depth_of(i) <= 64,
{
    lemma_depth_weight(i);
    if depth_of(i) > 64 {
        lemma_pow2_strictly_increases(64, depth_of(i));
        lemma2_to64();
        assert(false);
    }
}

/// Offset of the other node of a sibling pair: the low bit of the offset
/// flipped.
pub open spec fn co_offset(o: nat) -> nat {
    if o % 2 == 0 {
        o + 1
    } else {
        (o - 1) as nat
    }
}

/// Parent of node `i`: one depth higher, at half the offset.
pub open spec fn parent_of(i: nat) -> int {
    index_of(depth_of(i) + 1, offset_of(i) / 2)
}

/// Sibling of node `i`: the other node at the same depth under the same
/// parent.
pub open spec fn sibling_of(i: nat) -> int {
    index_of(depth_of(i), co_offset(offset_of(i)))
}

/// Uncle of node `i`: the sibling of its parent.
pub open spec fn uncle_of(i: nat) -> int {
    sibling_of(parent_of(i) as nat)
}

/// Left child of an internal node `i`: one depth lower, at twice the offset.
pub open spec fn left_child_of(i: nat) -> int
    recommends
        i % 2 == 1,
{
    index_of((depth_of(i) - 1) as nat, 2 * offset_of(i))
}

/// Right child of an internal node `i`: one depth lower, just right of the
/// left child.
pub open spec fn right_child_of(i: nat) -> int
    recommends
        i % 2 == 1,
{
    index_of((depth_of(i) - 1) as nat, 2 * offset_of(i) + 1)
}

/// Leftmost leaf index covered by the subtree rooted at `i`.
pub open spec fn left_span_of(i: nat) -> int {
    offset_of(i) * (pow2(depth_of(i) + 1) as int)
}

/// Rightmost leaf index covered by the subtree rooted at `i`.
pub open spec fn right_span_of(i: nat) -> int {
    left_span_of(i) + pow2(depth_of(i) + 1) - 2
}

/// Number of flat indices in the subtree rooted at `i`: always
/// `pow2(depth_of(i) + 1) - 1`, whatever the offset.
pub open spec fn count_of(i: nat) -> int {
    pow2(depth_of(i) + 1) - 1
}

/// The sibling relation is an involution: taking the sibling twice leads back
/// to the node itself.
pub proof fn lemma_sibling_involution(i: nat)
    ensures
        sibling_of(i) >= 0,
        sibling_of(sibling_of(i) as nat) == i,
{
    let d = depth_of(i);
    let o = offset_of(i);
    lemma_coordinates_round_trip(d, co_offset(o));
    lemma_index_of_inverse(i);
    assert(co_offset(co_offset(o)) == o);
}

/// An internal node sits exactly one step above each of its children:
/// `left_child_of(i) == i - pow2(d - 1)` and
/// `right_child_of(i) == i + pow2(d - 1)` at depth `d`.
pub proof fn lemma_child_values(i: nat)
    requires
        i % 2 == 1,
    ensures
        depth_of(i) >= 1,
        left_child_of(i) == i - pow2((depth_of(i) - 1) as nat),
        right_child_of(i) == i + pow2((depth_of(i) - 1) as nat),
{
    let d = depth_of(i);
    let o = offset_of(i);
    lemma_index_of_inverse(i);
    lemma_pow2_pos((d - 1) as nat);
    lemma_pow2_unfold(d);
    lemma_pow2_unfold(d + 1);
    // (2 * o) * pow2(d) == o * pow2(d + 1)
    lemma_mul_is_associative(2, o as int, pow2(d) as int);
    lemma_mul_is_associative(o as int, 2, pow2(d) as int);
    // (2 * o + 1) * pow2(d) == (2 * o) * pow2(d) + pow2(d)
    lemma_mul_is_distributive_add_other_way(pow2(d) as int, 2 * o as int, 1);
}

/// Both children of an internal node point back to it as their parent.
pub proof fn lemma_parent_of_children(i: nat)
    requires
        i % 2 == 1,
    ensures
        depth_of(i) >= 1,
        left_child_of(i) >= 0,
        right_child_of(i) >= 0,
        parent_of(left_child_of(i) as nat) == i,
        parent_of(right_child_of(i) as nat) == i,
{
    let d = depth_of(i);
    let o = offset_of(i);
    lemma_index_of_inverse(i);
    lemma_coordinates_round_trip((d - 1) as nat, 2 * o);
    lemma_coordinates_round_trip((d - 1) as nat, 2 * o + 1);
    lemma_div_multiples_vanish(o as int, 2);
    lemma_fundamental_div_mod_converse(2 * (o as int) + 1, 2, o as int, 1);
    assert((2 * o) / 2 == o);
    assert((2 * o + 1) / 2 == o);
}

/// A leaf is its own one-node subtree: depth 0, a span of just itself, and a
/// count of 1.
pub proof fn lemma_leaf_properties(i: nat)
    requires
        i % 2 == 0,
    ensures
        depth_of(i) == 0,
        left_span_of(i) == i,
        right_span_of(i) == i,
        count_of(i) == 1,
{
    lemma2_to64();
    lemma_index_of_inverse(i);
}

/// Headroom of a node below `u64::MAX`: since the bit just above the trailing
/// ones of `i` is zero, `i` leaves at least `pow2(depth_of(i))` of room below
/// `u64::MAX`, and the offset fits under `pow2(63 - depth_of(i))`.
pub proof fn lemma_node_headroom(i: nat)
    requires
        i <= u64::MAX,
        depth_of(i) <= 63,
    ensures
        offset_of(i) < pow2((63 - depth_of(i)) as nat),
        i + pow2(depth_of(i)) <= u64::MAX,
{
    let d = depth_of(i);
    let o = offset_of(i);
    let p = pow2(d) as int;
    let bp = pow2(d + 1) as int;
    lemma_index_of_inverse(i);
    assert(i == o * bp + p - 1);
    lemma_pow2_pos(d);
    lemma_pow2_pos(d + 1);
    lemma_pow2_unfold(d + 1);
    lemma2_to64();
    lemma_pow2_adds((63 - d) as nat, d + 1);
    assert(pow2(64) == pow2((63 - d) as nat) * pow2(d + 1));
    if o >= pow2((63 - d) as nat) {
        lemma_mul_inequality(pow2((63 - d) as nat) as int, o as int, bp);
        assert(o * bp >= pow2(64));
        assert(false);
    }
    // o <= pow2(63 - d) - 1, so o * bp <= pow2(64) - bp and i + p <= 2^64 - 1.
    lemma_mul_inequality(o as int, pow2((63 - d) as nat) - 1, bp);
    lemma_mul_is_distributive_sub_other_way(bp, pow2((63 - d) as nat) as int, 1);
    assert(o * bp <= pow2(64) - bp);
}

/// Largest power of two that is at most `n`, for `n >= 1`: the value of the
/// highest set bit of `n`.
pub open spec fn greatest_pow2_le(n: nat) -> nat
    decreases n,
{
    if n < 2 {
        1
    } else {
        2 * greatest_pow2_le(n / 2)
    }
}

/// For `n >= 1`, the greatest power of two at most `n` lies between half of
/// `n` (exclusive) and `n` itself.
pub proof fn lemma_greatest_pow2_le_bounds(n: nat)
    requires
        n >= 1,
    ensures
        1 <= greatest_pow2_le(n),
        greatest_pow2_le(n) <= n,
        n < 2 * greatest_pow2_le(n),
    decreases n,
{
    if n >= 2 {
        lemma_greatest_pow2_le_bounds(n / 2);
    }
}

/// A power of two `pow2(e)` with `pow2(e) <= n < 2 * pow2(e)` is the greatest
/// power of two at most `n`.
pub proof fn lemma_greatest_pow2_le_unique(n: nat, e: nat)
    requires
        pow2(e) <= n,
        n < 2 * pow2(e),
    ensures
        greatest_pow2_le(n) == pow2(e),
    decreases n,
{
    lemma2_to64();
    lemma_pow2_pos(e);
    if n < 2 {
        if e > 0 {
            lemma_pow2_strictly_increases(0, e);
            assert(false);
        }
    } else {
        if e == 0 {
            assert(false);
        }
        lemma_pow2_unfold(e);
        lemma_greatest_pow2_le_unique(n / 2, (e - 1) as nat);
    }
}

/// Roots of the maximal fully balanced subtrees whose leaf spans tile a
/// prefix of `n` leaves, `base` leaves already being covered to their left:
/// the greedy binary decomposition of `n`, highest power of two first. Each
/// root of a subtree over `f` leaves starting at leaf number `b` has flat
/// index `2 * b + f - 1`.
pub open spec fn roots_of(n: nat, base: nat) -> Seq<int>
    decreases n,
{
    if n == 0 {
        Seq::empty()
    } else {
        let f = greatest_pow2_le(n);
        proof {
            lemma_greatest_pow2_le_bounds(n);
        }
        seq![2 * (base as int) + f - 1] + roots_of((n - f) as nat, base + f)
    }
}

/// The greatest power of two at most `n` is `pow2(e)` for some exponent `e`,
/// which this proof returns.
proof fn lemma_greatest_pow2_exponent(n: nat) -> (e: nat)
    requires
        n >= 1,
    ensures
        greatest_pow2_le(n) == pow2(e),
    decreases n,
{
    if n < 2 {
        lemma2_to64();
        0
    } else {
        let e2 = lemma_greatest_pow2_exponent(n / 2);
        lemma_pow2_unfold(e2 + 1);
        e2 + 1
    }
}

/// A number divisible by `pow2(e)` is divisible by every smaller power of
/// two.
proof fn lemma_pow2_divides(b: nat, e: nat, e2: nat)
    requires
        e2 <= e,
        b % pow2(e) == 0,
    ensures
        b % pow2(e2) == 0,
{
    lemma_pow2_pos(e);
    lemma_pow2_pos(e2);
    lemma_fundamental_div_mod(b as int, pow2(e) as int);
    let q = b as int / pow2(e) as int;
    assert(b == pow2(e) * q);
    lemma_pow2_adds((e - e2) as nat, e2);
    assert(pow2(e) == pow2((e - e2) as nat) * pow2(e2));
    lemma_mul_is_commutative(pow2((e - e2) as nat) as int, pow2(e2) as int);
    lemma_mul_is_associative(pow2(e2) as int, pow2((e - e2) as nat) as int, q);
    assert(b == pow2(e2) * (pow2((e - e2) as nat) * q));
    lemma_mul_is_commutative(pow2(e2) as int, pow2((e - e2) as nat) * q);
    lemma_mod_multiples_basic(pow2((e - e2) as nat) * q, pow2(e2) as int);
}

/// The root of a fully balanced subtree over `pow2(e)` leaves whose leftmost
/// leaf is leaf number `b` (a multiple of `pow2(e)`): its flat index is
/// `2 * b + pow2(e) - 1`, it sits at depth `e`, and its span runs from leaf
/// index `2 * b` to `2 * b + 2 * pow2(e) - 2`.
proof fn lemma_balanced_root(b: nat, e: nat)
    requires
        b % pow2(e) == 0,
    ensures
        2 * b + pow2(e) - 1 == index_of(e, b / pow2(e)),
        depth_of((2 * b + pow2(e) - 1) as nat) == e,
        left_span_of((2 * b + pow2(e) - 1) as nat) == 2 * b,
        right_span_of((2 * b + pow2(e) - 1) as nat) == 2 * b + 2 * pow2(e) - 2,
{
    let q = b / pow2(e);
    lemma_pow2_pos(e);
    lemma_fundamental_div_mod(b as int, pow2(e) as int);
    assert(b == q * pow2(e));
    lemma_pow2_unfold(e + 1);
    lemma_mul_is_associative(q as int, 2, pow2(e) as int);
    lemma_mul_is_associative(2, q as int, pow2(e) as int);
    assert(index_of(e, q) == 2 * b + pow2(e) - 1);
    lemma_coordinates_round_trip(e, q);
}

/// The leaf spans of the roots of a prefix decomposition are consecutive:
/// each root's span starts where the previous root's span ended, the first at
/// leaf index `2 * base`, and the last ends at `2 * (base + n) - 2`, provided
/// the leaves already covered align with the first subtree.
proof fn lemma_roots_of_tiling(n: nat, base: nat)
    requires
        n >= 1 ==> base % greatest_pow2_le(n) == 0,
    ensures
        n >= 1 ==> roots_of(n, base).len() >= 1,
        roots_of(n, base).len() > 0 ==> left_span_of(roots_of(n, base)[0] as nat) == 2 * base,
        forall|k: int|
            0 < k < roots_of(n, base).len() ==> left_span_of(
                (#[trigger] roots_of(n, base)[k]) as nat,
            ) == right_span_of(roots_of(n, base)[k - 1] as nat) + 2,
        roots_of(n, base).len() > 0 ==> right_span_of(
            roots_of(n, base)[roots_of(n, base).len() - 1] as nat,
        ) == 2 * (base + n) - 2,
    decreases n,
{
    if n >= 1 {
        lemma_greatest_pow2_le_bounds(n);
        let f = greatest_pow2_le(n);
        let e = lemma_greatest_pow2_exponent(n);
        lemma_balanced_root(base, e);
        let s = roots_of(n, base);
        let tail = roots_of((n - f) as nat, base + f);
        let head = 2 * (base as int) + f - 1;
        assert(s == seq![head] + tail);
        let rest = (n - f) as nat;
        if rest >= 1 {
            let f2 = greatest_pow2_le(rest);
            let e2 = lemma_greatest_pow2_exponent(rest);
            lemma_greatest_pow2_le_bounds(rest);
            // f2 <= n - f < f forces e2 < e, so f2 divides both base and f.
            if e2 >= e {
                if e2 > e {
                    lemma_pow2_strictly_increases(e, e2);
                }
                assert(false);
            }
            lemma_pow2_divides(base, e, e2);
            lemma_pow2_pos(e);
            lemma_mod_self_0(pow2(e) as int);
            lemma_pow2_divides(f, e, e2);
            lemma_pow2_pos(e2);
            lemma_add_mod_noop(base as int, f as int, pow2(e2) as int);
            lemma_small_mod(0, pow2(e2));
            assert((base + f) % f2 == 0);
        }
        lemma_roots_of_tiling(rest, base + f);
        assert forall|k: int|
            0 < k < s.len() implies left_span_of((#[trigger] s[k]) as nat) == right_span_of(
            s[k - 1] as nat,
        ) + 2 by {
            assert(s[k] == tail[k - 1]);
            if k == 1 {
                assert(left_span_of(tail[0] as nat) == 2 * (base + f));
            } else {
                assert(s[k - 1] == tail[k - 2]);
            }
        }
        if tail.len() == 0 {
            assert(n == f);
        } else {
            assert(s[s.len() - 1] == tail[tail.len() - 1]);
        }
    }
}

/// The roots of `full_roots` tile the prefix exactly: the first root's leaf
/// span starts at flat index 0, each later root's span starts right after the
/// previous one ends, and the last span ends at flat index `2 * n - 2` — so
/// together the subtrees cover exactly the `n` leaves left of flat index
/// `2 * n`, each leaf once.
pub proof fn lemma_full_roots_tile(n: nat)
    ensures
        n >= 1 ==> roots_of(n, 0).len() >= 1,
        roots_of(n, 0).len() > 0 ==> left_span_of(roots_of(n, 0)[0] as nat) == 0,
        forall|k: int|
            0 < k < roots_of(n, 0).len() ==> left_span_of((#[trigger] roots_of(n, 0)[k]) as nat)
                == right_span_of(roots_of(n, 0)[k - 1] as nat) + 2,
        roots_of(n, 0).len() > 0 ==> right_span_of(
            roots_of(n, 0)[roots_of(n, 0).len() - 1] as nat,
        ) == 2 * n - 2,
{
    if n >= 1 {
        lemma_greatest_pow2_le_bounds(n);
    }
    lemma_roots_of_tiling(n, 0);
}

/// The elements of a sequence of 64-bit values, read as unbounded integers.
pub open spec fn as_ints(s: Seq<u64>) -> Seq<int> {
    s.map_values(|x: u64| x as int)
}

/// The roots of a prefix decomposition lie within the tiled region and come
/// in strictly ascending order.
pub proof fn lemma_roots_of_bounds(n: nat, base: nat)
    ensures
        forall|k: int|
            0 <= k < roots_of(n, base).len() ==> 2 * base <= #[trigger] roots_of(n, base)[k] < 2 * (
            base + n),
        forall|j: int, k: int|
            0 <= j < k < roots_of(n, base).len() ==> roots_of(n, base)[j] < roots_of(n, base)[k],
    decreases n,
{
    if n != 0 {
        lemma_greatest_pow2_le_bounds(n);
        let f = greatest_pow2_le(n);
        lemma_roots_of_bounds((n - f) as nat, base + f);
        let s = roots_of(n, base);
        let tail = roots_of((n - f) as nat, base + f);
        assert forall|k: int| 0 <= k < s.len() implies 2 * base <= #[trigger] s[k] < 2 * (base
            + n) by {
            if k > 0 {
                assert(s[k] == tail[k - 1]);
            }
        }
        assert forall|j: int, k: int| 0 <= j < k < s.len() implies s[j] < s[k] by {
            assert(s[k] == tail[k - 1]);
            if j > 0 {
                assert(s[j] == tail[j - 1]);
            }
        }
    }
}

} // verus!
