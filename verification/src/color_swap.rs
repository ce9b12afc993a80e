//! Seeing a position from the other player's side twice gives back its
//! canonical form.

use vstd::prelude::*;
use crate::features::{
    swap_spec, swap_blocks, transform_spec, coords_negatable, candidates, canon_scan, canonical,
    adj_perm_spec, lemma_adj_perm_involution, block, lex_less_from, negatable,
    PIECE_FEATURES_LEN, TOTAL_FN, ADJ_SIZE,
};
use crate::slot_order::{
    group_start, group_size, group_step, steps_upto, lemma_swap_blocks, lemma_step_frame,
    lemma_sort_groups_steps, lemma_canonical_slot_swap,
};

verus! {

/// The block of the other player matching the block at `a`.
pub open spec fn mirror(a: int) -> int {
    if a < 154 {
        a + 154
    } else {
        a - 154
    }
}

/// Index `i` of the piece features, its source under the color swap, and
/// their common field.
proof fn lemma_swap_index(i: int)
    requires
        0 <= i < PIECE_FEATURES_LEN,
    ensures
        0 <= mirror(i) < PIECE_FEATURES_LEN,
        mirror(i) % 11 == i % 11,
        0 <= i % 11 < 11,
        mirror(i) - i % 11 + 11 <= PIECE_FEATURES_LEN,
        0 <= mirror(i) - i % 11,
        mirror(mirror(i)) == i,
        mirror(i) - i % 11 < 154 <==> i - i % 11 >= 154,
{
    assert(mirror(i) % 11 == i % 11 && 0 <= i % 11 < 11 && mirror(i) - i % 11 + 11 <= 308 && 0
        <= mirror(i) - i % 11 && (mirror(i) - i % 11 < 154 <==> i - i % 11 >= 154)) by (nonlinear_arith)
        requires
            0 <= i < 308,
            mirror(i) == (if i < 154 { i + 154 } else { i - 154 }),
    ;
}

/// Index `base + x` of a block starting at `base`, a multiple of 11.
proof fn lemma_field(base: int, x: int)
    requires
        base % 11 == 0,
        0 <= base,
        0 <= x < 11,
    ensures
        (base + x) % 11 == x,
{
    assert((base + x) % 11 == x) by (nonlinear_arith)
        requires
            base % 11 == 0,
            0 <= base,
            0 <= x < 11,
    ;
}

/// The color swap keeps the coordinates negatable.
pub proof fn lemma_swap_negatable(f: Seq<i16>)
    requires
        f.len() == TOTAL_FN,
        coords_negatable(f),
    ensures
        swap_spec(f, adj_perm_spec()).len() == TOTAL_FN,
        coords_negatable(swap_spec(f, adj_perm_spec())),
{
    let s = swap_spec(f, adj_perm_spec());
    assert forall|i: int| 0 <= i < PIECE_FEATURES_LEN && i % 11 < 6 implies negatable(
        #[trigger] s[i] as int,
    ) by {
        lemma_swap_index(i);
        let fld = i % 11;
        let base = mirror(i) - fld;
        assert(base % 11 == 0) by (nonlinear_arith)
            requires
                base == mirror(i) - fld,
                mirror(i) % 11 == fld,
        ;
        if fld < 3 {
            lemma_field(base, fld + 3);
        } else {
            lemma_field(base, fld - 3);
        }
    }
}

/// Swapping the colors twice gives back the features.
pub proof fn lemma_swap_involution(f: Seq<i16>)
    requires
        f.len() == TOTAL_FN,
    ensures
        swap_spec(swap_spec(f, adj_perm_spec()), adj_perm_spec()) == f,
{
    lemma_adj_perm_involution();
    let p = adj_perm_spec();
    let s = swap_spec(f, p);
    let s2 = swap_spec(s, p);
    assert forall|i: int| 0 <= i < TOTAL_FN implies #[trigger] s2[i] == f[i] by {
        if i < PIECE_FEATURES_LEN {
            lemma_swap_index(i);
            let fld = i % 11;
            let base = mirror(i) - fld;
            assert(base % 11 == 0 && (i - fld) % 11 == 0) by (nonlinear_arith)
                requires
                    base == mirror(i) - fld,
                    mirror(i) % 11 == fld,
                    i % 11 == fld,
                    0 <= i,
            ;
            let k = if fld < 3 {
                base + fld + 3
            } else if fld < 6 {
                base + fld - 3
            } else if fld == 6 {
                base + 7
            } else if fld == 7 {
                base + 6
            } else {
                mirror(i)
            };
            let kf = if fld < 3 {
                fld + 3
            } else if fld < 6 {
                fld - 3
            } else if fld == 6 {
                7int
            } else if fld == 7 {
                6int
            } else {
                fld
            };
            lemma_field(base, kf);
            lemma_swap_index(k);
            assert(mirror(k) - kf == i - fld);
        } else {
            assert(0 <= p[i - PIECE_FEATURES_LEN] < ADJ_SIZE);
        }
    }
    assert(s2 =~= f);
}

/// The two blocks matched by the color swap: the block of `i` starts at
/// `bi`, its match at `mirror(bi)`, and each of its indexes is matched
/// with the same position in the other block.
proof fn lemma_blocks_match(i: int)
    requires
        0 <= i < PIECE_FEATURES_LEN,
    ensures
        (i - i % 11) % 11 == 0,
        (mirror(i) - i % 11) % 11 == 0,
        mirror(i) - i % 11 == mirror(i - i % 11),
        (i / 11) * 11 == i - i % 11,
        forall|y: int| 0 <= y < 11 ==> mirror(#[trigger] (i - i % 11 + y)) == mirror(i - i % 11) + y,
        0 <= i % 11 < 11,
        0 <= mirror(i - i % 11),
        mirror(i - i % 11) + 11 <= PIECE_FEATURES_LEN,
{
    let f = i % 11;
    let bi = i - f;
    assert(bi % 11 == 0 && (i / 11) * 11 == bi && 0 <= f < 11 && (bi < 154 <==> bi + 10 < 154)
        && (mirror(i) - f) % 11 == 0) by (nonlinear_arith)
        requires
            0 <= i < 308,
            f == i % 11,
            bi == i - f,
            mirror(i) == (if i < 154 { i + 154 } else { i - 154 }),
    ;
}

/// Feature `i` after a symmetry and then the color swap, and after the
/// color swap and then the symmetry.
proof fn lemma_swap_transform_at(x: Seq<i16>, k: int, i: int)
    requires
        x.len() == TOTAL_FN,
        0 <= i < PIECE_FEATURES_LEN,
    ensures
        swap_spec(transform_spec(x, k), adj_perm_spec())[i] == transform_spec(
            swap_spec(x, adj_perm_spec()),
            k,
        )[i],
{
    let p = adj_perm_spec();
    let t = transform_spec(x, k);
    let sx = swap_spec(x, p);
    lemma_blocks_match(i);
    let fld = i % 11;
    let bi = i - fld;
    let base = mirror(bi);
    assert(mirror(i) == base + fld);
    lemma_field(base, 0);
    lemma_field(base, 1);
    lemma_field(base, 2);
    lemma_field(base, 3);
    lemma_field(base, 4);
    lemma_field(base, 5);
    lemma_field(base, 6);
    lemma_field(base, 7);
    lemma_field(bi, 0);
    lemma_field(bi, 1);
    lemma_field(bi, 2);
    lemma_field(bi, 3);
    lemma_field(bi, 4);
    lemma_field(bi, 5);
    assert(mirror(bi + 0) == base && mirror(bi + 1) == base + 1 && mirror(bi + 2) == base + 2);
    assert(mirror(bi + 3) == base + 3 && mirror(bi + 4) == base + 4 && mirror(bi + 5) == base + 5);
    assert(((base + 3) / 11) * 11 == base && ((base + 4) / 11) * 11 == base && ((base + 5) / 11) * 11
        == base && ((base + 0) / 11) * 11 == base && ((base + 1) / 11) * 11 == base && ((base + 2)
        / 11) * 11 == base && ((base + 6) / 11) * 11 == base && ((base + 7) / 11) * 11 == base)
        by (nonlinear_arith)
        requires
            base % 11 == 0,
            0 <= base,
    ;
    assert(sx[bi] == x[base + 3] && sx[bi + 1] == x[base + 4] && sx[bi + 2] == x[base + 5]);
    assert(sx[bi + 3] == x[base] && sx[bi + 4] == x[base + 1] && sx[bi + 5] == x[base + 2]);
}

/// A symmetry and the color swap commute: both coordinate triples of a
/// block move together.
pub proof fn lemma_swap_transform(x: Seq<i16>, k: int)
    requires
        x.len() == TOTAL_FN,
    ensures
        swap_spec(transform_spec(x, k), adj_perm_spec()) == transform_spec(
            swap_spec(x, adj_perm_spec()),
            k,
        ),
{
    let p = adj_perm_spec();
    let l = swap_spec(transform_spec(x, k), p);
    let r = transform_spec(swap_spec(x, p), k);
    assert forall|i: int| 0 <= i < TOTAL_FN implies #[trigger] l[i] == r[i] by {
        if i < PIECE_FEATURES_LEN {
            lemma_swap_transform_at(x, k, i);
        } else {
            lemma_adj_perm_involution();
            assert(0 <= p[i - PIECE_FEATURES_LEN] < ADJ_SIZE);
        }
    }
    assert(l =~= r);
}

/// Exchanging two blocks of one player and then swapping the colors is
/// swapping the colors and then exchanging the matching blocks.
proof fn lemma_swap_exchange_at(w: Seq<i16>, a: int, b: int, i: int)
    requires
        w.len() == TOTAL_FN,
        a % 11 == 0,
        b % 11 == 0,
        0 <= a,
        a + 11 <= b,
        b + 11 <= PIECE_FEATURES_LEN,
        a < 154 <==> b < 154,
        0 <= i < PIECE_FEATURES_LEN,
    ensures
        swap_spec(swap_blocks(w, a, b), adj_perm_spec())[i] == swap_blocks(
            swap_spec(w, adj_perm_spec()),
            mirror(a),
            mirror(b),
        )[i],
{
    lemma_blocks_match(i);
    let fld = i % 11;
    let bi = i - fld;
    let base = mirror(bi);
    assert(mirror(i) == base + fld);
    assert(bi == a || bi + 11 <= a || bi >= a + 11) by (nonlinear_arith)
        requires
            bi % 11 == 0,
            a % 11 == 0,
    ;
    assert(bi == b || bi + 11 <= b || bi >= b + 11) by (nonlinear_arith)
        requires
            bi % 11 == 0,
            b % 11 == 0,
    ;
    assert(base == a || base + 11 <= a || base >= a + 11) by (nonlinear_arith)
        requires
            base % 11 == 0,
            a % 11 == 0,
    ;
    assert(base == b || base + 11 <= b || base >= b + 11) by (nonlinear_arith)
        requires
            base % 11 == 0,
            b % 11 == 0,
    ;
    let kf = if fld < 3 {
        fld + 3
    } else if fld < 6 {
        fld - 3
    } else if fld == 6 {
        7int
    } else if fld == 7 {
        6int
    } else {
        fld
    };
    lemma_field(base, kf);
    if base == a {
        let j = i - mirror(a) + mirror(b);
        lemma_blocks_match(j);
        lemma_field(mirror(b), fld);
        assert(j - j % 11 == mirror(b));
    } else if base == b {
        let j = i - mirror(b) + mirror(a);
        lemma_blocks_match(j);
        lemma_field(mirror(a), fld);
        assert(j - j % 11 == mirror(a));
    }
}

/// Exchanging two blocks of one player and then swapping the colors is
/// swapping the colors and then exchanging the matching blocks.
proof fn lemma_swap_exchange(w: Seq<i16>, a: int, b: int)
    requires
        w.len() == TOTAL_FN,
        a % 11 == 0,
        b % 11 == 0,
        0 <= a,
        a + 11 <= b,
        b + 11 <= PIECE_FEATURES_LEN,
        a < 154 <==> b < 154,
    ensures
        swap_spec(swap_blocks(w, a, b), adj_perm_spec()) == swap_blocks(
            swap_spec(w, adj_perm_spec()),
            mirror(a),
            mirror(b),
        ),
{
    let p = adj_perm_spec();
    let l = swap_spec(swap_blocks(w, a, b), p);
    let r = swap_blocks(swap_spec(w, p), mirror(a), mirror(b));
    lemma_swap_blocks(w, a, b);
    assert forall|i: int| 0 <= i < TOTAL_FN implies #[trigger] l[i] == r[i] by {
        if i < PIECE_FEATURES_LEN {
            lemma_swap_exchange_at(w, a, b, i);
        } else {
            lemma_adj_perm_involution();
            assert(0 <= p[i - PIECE_FEATURES_LEN] < ADJ_SIZE);
        }
    }
    assert(l =~= r);
}

/// The group of the other player matching group `g`.
pub open spec fn mirror_group(g: int) -> int {
    if g < 4 {
        g + 4
    } else {
        g - 4
    }
}

/// An exchange of two same-type blocks does not change the canonical form
/// of the color-swapped features.
proof fn lemma_swapped_exchange(w: Seq<i16>, g: int, p: int, q: int)
    requires
        w.len() == TOTAL_FN,
        0 <= g < 8,
        0 <= p < q < group_size(g),
    ensures
        canonical(swap_spec(swap_blocks(w, group_start(g) + 11 * p, group_start(g) + 11 * q), adj_perm_spec()))
            == canonical(swap_spec(w, adj_perm_spec())),
{
    let a = group_start(g) + 11 * p;
    let b = group_start(g) + 11 * q;
    let g2 = mirror_group(g);
    assert(group_start(g2) == mirror(group_start(g)) && group_size(g2) == group_size(g));
    lemma_swap_exchange(w, a, b);
    lemma_canonical_slot_swap(swap_spec(w, adj_perm_spec()), g2, p, q);
}

/// Ordering one group does not change the canonical form of the
/// color-swapped features.
proof fn lemma_swapped_step(g: int, y: Seq<i16>)
    requires
        0 <= g < 8,
        y.len() == TOTAL_FN,
    ensures
        canonical(swap_spec(group_step(g, y), adj_perm_spec())) == canonical(swap_spec(y, adj_perm_spec())),
{
    let st = group_start(g);
    if g % 2 == 0 {
        let a = st;
        let b = st + 11;
        let c = st + 22;
        lemma_swap_blocks(y, a, b);
        let v1 = if lex_less_from(block(y, b), block(y, a), 0) {
            lemma_swapped_exchange(y, g, 0, 1);
            swap_blocks(y, a, b)
        } else {
            y
        };
        if lex_less_from(block(v1, c), block(v1, b), 0) {
            lemma_swap_blocks(v1, b, c);
            lemma_swapped_exchange(v1, g, 1, 2);
            let v2 = swap_blocks(v1, b, c);
            if lex_less_from(block(v2, b), block(v2, a), 0) {
                lemma_swapped_exchange(v2, g, 0, 1);
            }
        }
    } else {
        lemma_swapped_exchange(y, g, 0, 1);
    }
}

/// Ordering the first `n` groups does not change the canonical form of the
/// color-swapped features.
proof fn lemma_swapped_steps(y: Seq<i16>, n: int)
    requires
        y.len() == TOTAL_FN,
        0 <= n <= 8,
    ensures
        canonical(swap_spec(steps_upto(y, n), adj_perm_spec())) == canonical(swap_spec(y, adj_perm_spec())),
        steps_upto(y, n).len() == TOTAL_FN,
    decreases n,
{
    if n > 0 {
        lemma_swapped_steps(y, n - 1);
        lemma_step_frame(n - 1, steps_upto(y, n - 1));
        lemma_swapped_step(n - 1, steps_upto(y, n - 1));
    }
}

/// Swapping the colors of a position twice, putting it in canonical form
/// each time, gives back the canonical form of the position.
pub proof fn lemma_swap_twice(f: Seq<i16>)
    requires
        f.len() == TOTAL_FN,
        coords_negatable(f),
    ensures
        canonical(swap_spec(canonical(swap_spec(f, adj_perm_spec())), adj_perm_spec()))
            == canonical(f),
{
    let pm = adj_perm_spec();
    let s = swap_spec(f, pm);
    lemma_swap_negatable(f);
    let cands = candidates(s);
    crate::symmetry::lemma_candidates_range(s);
    crate::symmetry::lemma_canon_scan(s, cands, cands.len() as int);
    let i = choose|i: int|
        0 <= i < cands.len() && canon_scan(s, cands, cands.len() as int) == crate::symmetry::form(
            s,
            cands[i],
        );
    let k = cands[i];
    let y = transform_spec(s, k);
    crate::symmetry::lemma_transform_compose(s, k, 0);
    lemma_sort_groups_steps(y);
    lemma_swapped_steps(y, 8);
    lemma_swap_transform(s, k);
    lemma_swap_involution(f);
    crate::symmetry::lemma_canonical_symmetric(f, k);
}

/// A feature vector in canonical form comes back from swapping the colors
/// twice: `swap_features_color` applied twice is the identity on it.
pub proof fn lemma_swap_twice_restores(f: Seq<i16>)
    requires
        f.len() == TOTAL_FN,
        coords_negatable(f),
        canonical(f) == f,
    ensures
        canonical(swap_spec(canonical(swap_spec(f, adj_perm_spec())), adj_perm_spec())) == f,
{
    lemma_swap_twice(f);
}

} // verus!
