//! The canonical form of a feature vector does not depend on how the pieces
//! of one type and one player are numbered: exchanging the feature blocks of
//! two such pieces leaves it unchanged.

use vstd::prelude::*;
use crate::features::{
    lex_less_from, block, swap_blocks, sort2_spec, sort3_spec, sort_groups_spec, transform_spec,
    coords_negatable, candidates, canon_scan, canonical, queen_offset, PIECE_FEATURES_LEN,
    TOTAL_FN,
};
use crate::symmetry::{lemma_lex_irreflexive, lemma_lex_asymmetric, lemma_lex_transitive, lemma_lex_total};

verus! {

/// `x` comes before `y`.
pub open spec fn lt(x: Seq<i16>, y: Seq<i16>) -> bool {
    lex_less_from(x, y, 0)
}

/// Two blocks in order.
pub open spec fn net2(x: Seq<i16>, y: Seq<i16>) -> (Seq<i16>, Seq<i16>) {
    if lt(y, x) {
        (y, x)
    } else {
        (x, y)
    }
}

/// Three blocks through the sorting network of `sort3_spec`.
pub open spec fn net3(x: Seq<i16>, y: Seq<i16>, z: Seq<i16>) -> (Seq<i16>, Seq<i16>, Seq<i16>) {
    let (x1, y1) = net2(x, y);
    if lt(z, y1) {
        if lt(z, x1) {
            (z, x1, y1)
        } else {
            (x1, z, y1)
        }
    } else {
        (x1, y1, z)
    }
}

/// `v` with the blocks from `a` replaced by `x` and `y`.
pub open spec fn put2(v: Seq<i16>, a: int, x: Seq<i16>, y: Seq<i16>) -> Seq<i16> {
    Seq::new(
        v.len(),
        |i: int|
            if a <= i < a + 11 {
                x[i - a]
            } else if a + 11 <= i < a + 22 {
                y[i - a - 11]
            } else {
                v[i]
            },
    )
}

/// `v` with the blocks from `a` replaced by `x`, `y` and `z`.
pub open spec fn put3(v: Seq<i16>, a: int, x: Seq<i16>, y: Seq<i16>, z: Seq<i16>) -> Seq<i16> {
    Seq::new(
        v.len(),
        |i: int|
            if a <= i < a + 11 {
                x[i - a]
            } else if a + 11 <= i < a + 22 {
                y[i - a - 11]
            } else if a + 22 <= i < a + 33 {
                z[i - a - 22]
            } else {
                v[i]
            },
    )
}

/// The order facts about three blocks that the sorting networks use.
proof fn lemma_order3(x: Seq<i16>, y: Seq<i16>, z: Seq<i16>)
    requires
        x.len() == 11,
        y.len() == 11,
        z.len() == 11,
    ensures
        !lt(x, x),
        !lt(y, y),
        !lt(z, z),
        lt(x, y) ==> !lt(y, x),
        lt(y, x) ==> !lt(x, y),
        lt(x, z) ==> !lt(z, x),
        lt(z, x) ==> !lt(x, z),
        lt(y, z) ==> !lt(z, y),
        lt(z, y) ==> !lt(y, z),
        !lt(x, y) && !lt(y, x) ==> x == y,
        !lt(x, z) && !lt(z, x) ==> x == z,
        !lt(y, z) && !lt(z, y) ==> y == z,
        lt(x, y) && lt(y, z) ==> lt(x, z),
        lt(x, z) && lt(z, y) ==> lt(x, y),
        lt(y, x) && lt(x, z) ==> lt(y, z),
        lt(y, z) && lt(z, x) ==> lt(y, x),
        lt(z, x) && lt(x, y) ==> lt(z, y),
        lt(z, y) && lt(y, x) ==> lt(z, x),
{
    lemma_lex_irreflexive(x, 0);
    lemma_lex_irreflexive(y, 0);
    lemma_lex_irreflexive(z, 0);
    lemma_pair(x, y);
    lemma_pair(x, z);
    lemma_pair(y, z);
    if lt(x, y) && lt(y, z) {
        lemma_lex_transitive(x, y, z, 0);
    }
    if lt(x, z) && lt(z, y) {
        lemma_lex_transitive(x, z, y, 0);
    }
    if lt(y, x) && lt(x, z) {
        lemma_lex_transitive(y, x, z, 0);
    }
    if lt(y, z) && lt(z, x) {
        lemma_lex_transitive(y, z, x, 0);
    }
    if lt(z, x) && lt(x, y) {
        lemma_lex_transitive(z, x, y, 0);
    }
    if lt(z, y) && lt(y, x) {
        lemma_lex_transitive(z, y, x, 0);
    }
}

/// Two blocks of one length: at most one before the other, and equal when
/// neither is.
proof fn lemma_pair(x: Seq<i16>, y: Seq<i16>)
    requires
        x.len() == y.len(),
    ensures
        lt(x, y) ==> !lt(y, x),
        lt(y, x) ==> !lt(x, y),
        !lt(x, y) && !lt(y, x) ==> x == y,
{
    if lt(x, y) {
        lemma_lex_asymmetric(x, y, 0);
    }
    if lt(y, x) {
        lemma_lex_asymmetric(y, x, 0);
    }
    if !lt(x, y) && !lt(y, x) {
        lemma_lex_total(x, y, 0);
        assert(x =~= y);
    }
}

/// Sorting two blocks does not depend on their order.
pub proof fn lemma_net2_swap(x: Seq<i16>, y: Seq<i16>)
    requires
        x.len() == 11,
        y.len() == 11,
    ensures
        net2(y, x) == net2(x, y),
{
    lemma_pair(x, y);
}

/// Sorting three blocks does not depend on their order.
pub proof fn lemma_net3_swap(x: Seq<i16>, y: Seq<i16>, z: Seq<i16>)
    requires
        x.len() == 11,
        y.len() == 11,
        z.len() == 11,
    ensures
        net3(y, x, z) == net3(x, y, z),
        net3(x, z, y) == net3(x, y, z),
        net3(z, y, x) == net3(x, y, z),
{
    lemma_order3(x, y, z);
}

/// Exchanging two blocks: each takes the other's place, the rest stays.
pub proof fn lemma_swap_blocks(v: Seq<i16>, a: int, b: int)
    requires
        0 <= a,
        a + 11 <= b,
        b + 11 <= v.len(),
    ensures
        swap_blocks(v, a, b).len() == v.len(),
        block(swap_blocks(v, a, b), a) == block(v, b),
        block(swap_blocks(v, a, b), b) == block(v, a),
        forall|i: int|
            0 <= i < v.len() && !(a <= i < a + 11) && !(b <= i < b + 11) ==> #[trigger] swap_blocks(
                v,
                a,
                b,
            )[i] == v[i],
{
    assert(block(swap_blocks(v, a, b), a) =~= block(v, b));
    assert(block(swap_blocks(v, a, b), b) =~= block(v, a));
}

/// Ordering two blocks puts them in order in place.
pub proof fn lemma_sort2_put(v: Seq<i16>, a: int)
    requires
        0 <= a,
        a + 22 <= v.len(),
    ensures
        sort2_spec(v, a) == put2(v, a, net2(block(v, a), block(v, a + 11)).0, net2(block(v, a), block(v, a + 11)).1),
{
    let x = block(v, a);
    let y = block(v, a + 11);
    let r = sort2_spec(v, a);
    let n = net2(x, y);
    lemma_swap_blocks(v, a, a + 11);
    assert(r =~= put2(v, a, n.0, n.1));
}

/// Ordering three blocks with the network puts them in order in place.
#[verifier::rlimit(40)]
pub proof fn lemma_sort3_put(v: Seq<i16>, a: int)
    requires
        0 <= a,
        a + 33 <= v.len(),
    ensures
        ({
            let n = net3(block(v, a), block(v, a + 11), block(v, a + 22));
            sort3_spec(v, a) == put3(v, a, n.0, n.1, n.2)
        }),
{
    let b = a + 11;
    let c = a + 22;
    let x = block(v, a);
    let y = block(v, b);
    let z = block(v, c);
    let n = net3(x, y, z);
    lemma_swap_blocks(v, a, b);
    let v1 = if lex_less_from(block(v, b), block(v, a), 0) {
        swap_blocks(v, a, b)
    } else {
        v
    };
    assert(block(v1, a) == net2(x, y).0 && block(v1, b) == net2(x, y).1);
    assert(block(v1, c) =~= z);
    if lex_less_from(block(v1, c), block(v1, b), 0) {
        lemma_swap_blocks(v1, b, c);
        let v2 = swap_blocks(v1, b, c);
        lemma_swap_blocks(v2, a, b);
        assert(block(v2, a) == block(v1, a));
        assert(block(v2, a) =~= block(v1, a));
        if lex_less_from(block(v2, b), block(v2, a), 0) {
            let v3 = swap_blocks(v2, a, b);
            assert(block(v3, c) =~= block(v2, c));
            assert(v3 =~= put3(v, a, n.0, n.1, n.2));
        } else {
            assert(v2 =~= put3(v, a, n.0, n.1, n.2));
        }
    } else {
        assert(v1 =~= put3(v, a, n.0, n.1, n.2));
    }
}

/// The first feature of group `g` of same-type pieces: grasshoppers,
/// spiders, ants and beetles of the first player, then of the second.
pub open spec fn group_start(g: int) -> int {
    if g == 0 {
        11
    } else if g == 1 {
        44
    } else if g == 2 {
        66
    } else if g == 3 {
        99
    } else if g == 4 {
        165
    } else if g == 5 {
        198
    } else if g == 6 {
        220
    } else {
        253
    }
}

/// The number of pieces in group `g`.
pub open spec fn group_size(g: int) -> int {
    if g % 2 == 0 {
        3
    } else {
        2
    }
}

/// Ordering the blocks of group `g`.
pub open spec fn group_step(g: int, v: Seq<i16>) -> Seq<i16> {
    if g % 2 == 0 {
        sort3_spec(v, group_start(g))
    } else {
        sort2_spec(v, group_start(g))
    }
}

/// Ordering the first `n` groups, in turn.
pub open spec fn steps_upto(v: Seq<i16>, n: int) -> Seq<i16>
    decreases n,
{
    if n <= 0 {
        v
    } else {
        group_step(n - 1, steps_upto(v, n - 1))
    }
}

/// Ordering all groups is ordering each in turn.
pub proof fn lemma_sort_groups_steps(v: Seq<i16>)
    ensures
        sort_groups_spec(v) == steps_upto(v, 8),
{
    reveal(sort_groups_spec);
    reveal_with_fuel(steps_upto, 9);
}

/// The block of `y` at `st`, where `y` and `v` agree.
proof fn lemma_block_same(v: Seq<i16>, y: Seq<i16>, st: int)
    requires
        0 <= st,
        st + 11 <= v.len(),
        v.len() == y.len(),
        forall|i: int| st <= i < st + 11 ==> v[i] == y[i],
    ensures
        block(v, st) == block(y, st),
{
    assert(block(v, st) =~= block(y, st));
}

/// Ordering a group keeps the length, and the features outside the group.
pub proof fn lemma_step_frame(g: int, v: Seq<i16>)
    requires
        0 <= g < 8,
        v.len() == TOTAL_FN,
    ensures
        group_step(g, v).len() == v.len(),
        forall|i: int|
            0 <= i < v.len() && !(group_start(g) <= i < group_start(g) + 11 * group_size(g))
                ==> #[trigger] group_step(g, v)[i] == v[i],
{
    let st = group_start(g);
    if g % 2 == 0 {
        lemma_sort3_put(v, st);
    } else {
        lemma_sort2_put(v, st);
    }
}

/// Ordering a group commutes with exchanging two blocks outside it.
pub proof fn lemma_step_commute(g: int, y: Seq<i16>, a: int, b: int)
    requires
        0 <= g < 8,
        y.len() == TOTAL_FN,
        0 <= a,
        a + 11 <= b,
        b + 11 <= PIECE_FEATURES_LEN,
        a + 11 <= group_start(g) || group_start(g) + 11 * group_size(g) <= a,
        b + 11 <= group_start(g) || group_start(g) + 11 * group_size(g) <= b,
    ensures
        group_step(g, swap_blocks(y, a, b)) == swap_blocks(group_step(g, y), a, b),
{
    let st = group_start(g);
    let w = swap_blocks(y, a, b);
    lemma_swap_blocks(y, a, b);
    lemma_block_same(y, w, st);
    lemma_block_same(y, w, st + 11);
    if g % 2 == 0 {
        lemma_block_same(y, w, st + 22);
        lemma_sort3_put(y, st);
        lemma_sort3_put(w, st);
        lemma_swap_blocks(sort3_spec(y, st), a, b);
    } else {
        lemma_sort2_put(y, st);
        lemma_sort2_put(w, st);
        lemma_swap_blocks(sort2_spec(y, st), a, b);
    }
    assert(group_step(g, w) =~= swap_blocks(group_step(g, y), a, b));
}

/// Ordering a group absorbs an exchange of two of its blocks.
pub proof fn lemma_step_absorb(g: int, y: Seq<i16>, p: int, q: int)
    requires
        0 <= g < 8,
        y.len() == TOTAL_FN,
        0 <= p < q < group_size(g),
    ensures
        group_step(g, swap_blocks(y, group_start(g) + 11 * p, group_start(g) + 11 * q))
            == group_step(g, y),
{
    let st = group_start(g);
    let a = st + 11 * p;
    let b = st + 11 * q;
    let w = swap_blocks(y, a, b);
    lemma_swap_blocks(y, a, b);
    if g % 2 == 0 {
        let x0 = block(y, st);
        let x1 = block(y, st + 11);
        let x2 = block(y, st + 22);
        lemma_sort3_put(y, st);
        lemma_sort3_put(w, st);
        lemma_net3_swap(x0, x1, x2);
        if p == 0 && q == 1 {
            lemma_block_same(y, w, st + 22);
        } else if p == 1 && q == 2 {
            lemma_block_same(y, w, st);
        } else {
            lemma_block_same(y, w, st + 11);
        }
    } else {
        lemma_sort2_put(y, st);
        lemma_sort2_put(w, st);
        lemma_net2_swap(block(y, st), block(y, st + 11));
    }
    assert(group_step(g, w) =~= group_step(g, y));
}

/// Groups come one after another, in order.
proof fn lemma_groups_ordered(j: int, g: int)
    requires
        0 <= j < g < 8,
    ensures
        group_start(j) + 11 * group_size(j) <= group_start(g),
        group_start(g) + 11 * group_size(g) <= PIECE_FEATURES_LEN,
        group_start(j) >= 11,
{
}

/// Ordering the groups one by one: before the group of an exchange the
/// exchange carries through, and that group's step absorbs it.
proof fn lemma_steps_swap(v: Seq<i16>, g: int, p: int, q: int, n: int)
    requires
        v.len() == TOTAL_FN,
        0 <= g < 8,
        0 <= p < q < group_size(g),
        0 <= n <= 8,
    ensures
        steps_upto(v, n).len() == v.len(),
        n <= g ==> steps_upto(swap_blocks(v, group_start(g) + 11 * p, group_start(g) + 11 * q), n)
            == swap_blocks(steps_upto(v, n), group_start(g) + 11 * p, group_start(g) + 11 * q),
        n > g ==> steps_upto(swap_blocks(v, group_start(g) + 11 * p, group_start(g) + 11 * q), n)
            == steps_upto(v, n),
    decreases n,
{
    let a = group_start(g) + 11 * p;
    let b = group_start(g) + 11 * q;
    if n > 0 {
        let j = n - 1;
        lemma_steps_swap(v, g, p, q, j);
        let y = steps_upto(v, j);
        lemma_step_frame(j, y);
        if j < g {
            lemma_groups_ordered(j, g);
            lemma_step_commute(j, y, a, b);
        } else if j == g {
            lemma_step_absorb(g, y, p, q);
        }
    }
}

/// Ordering the groups absorbs an exchange of two blocks of one group.
pub proof fn lemma_sort_groups_swap(v: Seq<i16>, g: int, p: int, q: int)
    requires
        v.len() == TOTAL_FN,
        0 <= g < 8,
        0 <= p < q < group_size(g),
    ensures
        sort_groups_spec(swap_blocks(v, group_start(g) + 11 * p, group_start(g) + 11 * q))
            == sort_groups_spec(v),
{
    let w = swap_blocks(v, group_start(g) + 11 * p, group_start(g) + 11 * q);
    lemma_sort_groups_steps(v);
    lemma_sort_groups_steps(w);
    lemma_steps_swap(v, g, p, q, 8);
}

/// An index of the block starting at `a`, a multiple of 11.
proof fn lemma_index_in_block(a: int, i: int)
    requires
        a % 11 == 0,
        0 <= a <= i < a + 11,
    ensures
        (i / 11) * 11 == a,
        i % 11 == i - a,
{
    assert((i / 11) * 11 == a && i % 11 == i - a) by (nonlinear_arith)
        requires
            a % 11 == 0,
            0 <= a <= i < a + 11,
    ;
}

/// The block start and position of index `i`.
proof fn lemma_index_split(i: int)
    requires
        0 <= i,
    ensures
        (i / 11) * 11 % 11 == 0,
        0 <= (i / 11) * 11 <= i < (i / 11) * 11 + 11,
{
    assert((i / 11) * 11 % 11 == 0 && 0 <= (i / 11) * 11 <= i < (i / 11) * 11 + 11) by (nonlinear_arith)
        requires
            0 <= i,
    ;
}

/// A symmetry acts on each block by itself, so it commutes with
/// exchanging two blocks.
pub proof fn lemma_transform_swap(raw: Seq<i16>, k: int, a: int, b: int)
    requires
        raw.len() == TOTAL_FN,
        a % 11 == 0,
        b % 11 == 0,
        0 <= a,
        a + 11 <= b,
        b + 11 <= PIECE_FEATURES_LEN,
    ensures
        transform_spec(swap_blocks(raw, a, b), k) == swap_blocks(transform_spec(raw, k), a, b),
{
    let w = swap_blocks(raw, a, b);
    let t = transform_spec(raw, k);
    assert forall|i: int| 0 <= i < TOTAL_FN implies #[trigger] transform_spec(w, k)[i]
        == swap_blocks(t, a, b)[i] by {
        if i < PIECE_FEATURES_LEN {
            lemma_index_split(i);
            let base = (i / 11) * 11;
            if a <= i < a + 11 {
                lemma_index_in_block(a, i);
                lemma_index_in_block(b, i - a + b);
            } else if b <= i < b + 11 {
                lemma_index_in_block(b, i);
                lemma_index_in_block(a, i - b + a);
            } else {
                assert(base + 11 <= a || base >= a + 11) by (nonlinear_arith)
                    requires
                        base % 11 == 0,
                        a % 11 == 0,
                        base <= i < base + 11,
                        !(a <= i < a + 11),
                ;
                assert(base + 11 <= b || base >= b + 11) by (nonlinear_arith)
                    requires
                        base % 11 == 0,
                        b % 11 == 0,
                        base <= i < base + 11,
                        !(b <= i < b + 11),
                ;
            }
        }
    }
    assert(transform_spec(w, k) =~= swap_blocks(t, a, b));
}

/// Candidate scans over the same candidates agree when the candidate
/// forms do.
proof fn lemma_canon_scan_same(raw: Seq<i16>, raw2: Seq<i16>, cands: Seq<int>, n: int)
    requires
        0 <= n <= cands.len(),
        forall|i: int|
            0 <= i < n ==> #[trigger] sort_groups_spec(transform_spec(raw, cands[i]))
                == sort_groups_spec(transform_spec(raw2, cands[i])),
    ensures
        canon_scan(raw, cands, n) == canon_scan(raw2, cands, n),
    decreases n,
{
    if n > 0 {
        lemma_canon_scan_same(raw, raw2, cands, n - 1);
        assert(sort_groups_spec(transform_spec(raw, cands[n - 1])) == sort_groups_spec(
            transform_spec(raw2, cands[n - 1]),
        ));
    }
}

/// The canonical form of a feature vector does not depend on the numbering
/// of same-type pieces: exchanging the blocks of pieces `p` and `q` of
/// group `g` (grasshoppers, spiders, ants, beetles of each player) leaves
/// it unchanged. Every renumbering is a series of such exchanges.
pub proof fn lemma_canonical_slot_swap(raw: Seq<i16>, g: int, p: int, q: int)
    requires
        raw.len() == TOTAL_FN,
        0 <= g < 8,
        0 <= p < q < group_size(g),
    ensures
        canonical(swap_blocks(raw, group_start(g) + 11 * p, group_start(g) + 11 * q))
            == canonical(raw),
{
    let a = group_start(g) + 11 * p;
    let b = group_start(g) + 11 * q;
    let w = swap_blocks(raw, a, b);
    lemma_swap_blocks(raw, a, b);
    lemma_groups_ordered(0, 7);
    assert(queen_offset(w) == queen_offset(raw));
    assert(candidates(w) == candidates(raw));
    let cands = candidates(raw);
    assert forall|i: int| 0 <= i < cands.len() implies #[trigger] sort_groups_spec(
        transform_spec(raw, cands[i]),
    ) == sort_groups_spec(transform_spec(w, cands[i])) by {
        lemma_transform_swap(raw, cands[i], a, b);
        lemma_sort_groups_swap(transform_spec(raw, cands[i]), g, p, q);
    }
    lemma_canon_scan_same(raw, w, cands, cands.len() as int);
}

/// Ordering one group only exchanges blocks within it, so it keeps the
/// canonical form.
proof fn lemma_canonical_step(g: int, y: Seq<i16>)
    requires
        0 <= g < 8,
        y.len() == TOTAL_FN,
    ensures
        canonical(group_step(g, y)) == canonical(y),
{
    let st = group_start(g);
    lemma_groups_ordered(0, 7);
    if g % 2 == 0 {
        let a = st;
        let b = st + 11;
        let c = st + 22;
        lemma_swap_blocks(y, a, b);
        let v1 = if lex_less_from(block(y, b), block(y, a), 0) {
            lemma_canonical_slot_swap(y, g, 0, 1);
            swap_blocks(y, a, b)
        } else {
            y
        };
        if lex_less_from(block(v1, c), block(v1, b), 0) {
            lemma_swap_blocks(v1, b, c);
            lemma_canonical_slot_swap(v1, g, 1, 2);
            let v2 = swap_blocks(v1, b, c);
            if lex_less_from(block(v2, b), block(v2, a), 0) {
                lemma_canonical_slot_swap(v2, g, 0, 1);
            }
        }
    } else {
        lemma_swap_blocks(y, st, st + 11);
        lemma_canonical_slot_swap(y, g, 0, 1);
    }
}

/// Ordering the first `n` groups keeps the canonical form.
proof fn lemma_canonical_steps(y: Seq<i16>, n: int)
    requires
        y.len() == TOTAL_FN,
        0 <= n <= 8,
    ensures
        canonical(steps_upto(y, n)) == canonical(y),
        steps_upto(y, n).len() == TOTAL_FN,
    decreases n,
{
    if n > 0 {
        lemma_canonical_steps(y, n - 1);
        lemma_step_frame(n - 1, steps_upto(y, n - 1));
        lemma_canonical_step(n - 1, steps_upto(y, n - 1));
    }
}

/// Putting same-type pieces in order keeps the canonical form.
pub proof fn lemma_canonical_sorted(y: Seq<i16>)
    requires
        y.len() == TOTAL_FN,
    ensures
        canonical(sort_groups_spec(y)) == canonical(y),
{
    lemma_sort_groups_steps(y);
    lemma_canonical_steps(y, 8);
}

/// The canonical form is its own canonical form.
pub proof fn lemma_canonical_idempotent(f: Seq<i16>)
    requires
        f.len() == TOTAL_FN,
        coords_negatable(f),
    ensures
        canonical(canonical(f)) == canonical(f),
{
    let cands = candidates(f);
    crate::symmetry::lemma_candidates_range(f);
    crate::symmetry::lemma_canon_scan(f, cands, cands.len() as int);
    let i = choose|i: int|
        0 <= i < cands.len() && canon_scan(f, cands, cands.len() as int) == crate::symmetry::form(
            f,
            cands[i],
        );
    let k = cands[i];
    crate::symmetry::lemma_transform_compose(f, k, 0);
    lemma_canonical_sorted(transform_spec(f, k));
    crate::symmetry::lemma_canonical_symmetric(f, k);
}

} // verus!
