//! The canonical form of a feature vector does not depend on which of the
//! twelve symmetries of the hex grid the position was seen under.

use vstd::prelude::*;
use crate::features::{
    d6, negatable, tri_less, lex_less_from, transform_spec, sort_groups_spec, coords_negatable,
    cand_scan, candidates, canon_scan, canonical, queen_offset, PIECE_FN,
    PIECE_FEATURES_LEN, TOTAL_FN,
};

verus! {

/// The symmetry that applying `j` and then `k` amounts to.
pub open spec fn d6_mul(k: int, j: int) -> int {
    if k < 6 {
        if j < 6 {
            (k + j) % 6
        } else {
            6 + (k + j - 6) % 6
        }
    } else {
        if j < 6 {
            6 + (k - j) % 6
        } else {
            (k - j + 6) % 6
        }
    }
}

/// Applying symmetry `j` and then `k` is applying `d6_mul(k, j)`.
pub proof fn lemma_d6_mul(k: int, j: int, v: (int, int, int))
    requires
        0 <= k < 12,
        0 <= j < 12,
    ensures
        0 <= d6_mul(k, j) < 12,
        d6(k, d6(j, v)) == d6(d6_mul(k, j), v),
{
    if j == 0 {
        assert(d6(k, d6(j, v)) == d6(d6_mul(k, j), v));
    } else if j == 1 {
        assert(d6(k, d6(j, v)) == d6(d6_mul(k, j), v));
    } else if j == 2 {
        assert(d6(k, d6(j, v)) == d6(d6_mul(k, j), v));
    } else if j == 3 {
        assert(d6(k, d6(j, v)) == d6(d6_mul(k, j), v));
    } else if j == 4 {
        assert(d6(k, d6(j, v)) == d6(d6_mul(k, j), v));
    } else if j == 5 {
        assert(d6(k, d6(j, v)) == d6(d6_mul(k, j), v));
    } else if j == 6 {
        assert(d6(k, d6(j, v)) == d6(d6_mul(k, j), v));
    } else if j == 7 {
        assert(d6(k, d6(j, v)) == d6(d6_mul(k, j), v));
    } else if j == 8 {
        assert(d6(k, d6(j, v)) == d6(d6_mul(k, j), v));
    } else if j == 9 {
        assert(d6(k, d6(j, v)) == d6(d6_mul(k, j), v));
    } else if j == 10 {
        assert(d6(k, d6(j, v)) == d6(d6_mul(k, j), v));
    } else if j == 11 {
        assert(d6(k, d6(j, v)) == d6(d6_mul(k, j), v));
    }
}

/// Every symmetry is reached from `j` by some symmetry applied after it.
pub proof fn lemma_d6_mul_onto(c: int, j: int) -> (k: int)
    requires
        0 <= c < 12,
        0 <= j < 12,
    ensures
        0 <= k < 12,
        d6_mul(k, j) == c,
{
    if c < 6 {
        if j < 6 {
            (c - j + 6) % 6
        } else {
            6 + (c + j - 6) % 6
        }
    } else {
        if j < 6 {
            6 + (c - 6 + j) % 6
        } else {
            (c - 6 - (j - 6) + 6) % 6
        }
    }
}

/// No sequence comes before itself.
pub proof fn lemma_lex_irreflexive(x: Seq<i16>, i: int)
    ensures
        !lex_less_from(x, x, i),
    decreases x.len() - i,
{
    if 0 <= i < x.len() {
        lemma_lex_irreflexive(x, i + 1);
    }
}

/// Of two sequences of one length, at most one comes before the other.
pub proof fn lemma_lex_asymmetric(x: Seq<i16>, y: Seq<i16>, i: int)
    requires
        x.len() == y.len(),
        lex_less_from(x, y, i),
    ensures
        !lex_less_from(y, x, i),
    decreases x.len() - i,
{
    if 0 <= i < x.len() && x[i] == y[i] {
        lemma_lex_asymmetric(x, y, i + 1);
    }
}

/// The lexicographic order is transitive.
pub proof fn lemma_lex_transitive(x: Seq<i16>, y: Seq<i16>, z: Seq<i16>, i: int)
    requires
        x.len() == y.len(),
        y.len() == z.len(),
        lex_less_from(x, y, i),
        lex_less_from(y, z, i),
    ensures
        lex_less_from(x, z, i),
    decreases x.len() - i,
{
    if 0 <= i < x.len() && x[i] == y[i] && y[i] == z[i] {
        lemma_lex_transitive(x, y, z, i + 1);
    }
}

/// Two sequences of one length, neither before the other from index `i`,
/// agree from `i` on.
pub proof fn lemma_lex_total(x: Seq<i16>, y: Seq<i16>, i: int)
    requires
        x.len() == y.len(),
        0 <= i,
        !lex_less_from(x, y, i),
        !lex_less_from(y, x, i),
    ensures
        forall|k: int| i <= k < x.len() ==> x[k] == y[k],
    decreases x.len() - i,
{
    if i < x.len() {
        lemma_lex_total(x, y, i + 1);
    }
}

/// Every coordinate of `v` can be negated.
pub open spec fn tri_negatable(v: (int, int, int)) -> bool {
    negatable(v.0) && negatable(v.1) && negatable(v.2)
}

/// The scan over the first `n` symmetries finds the smallest image of `v`
/// and exactly the symmetries that reach it.
pub proof fn lemma_cand_scan(v: (int, int, int), n: int)
    requires
        0 <= n <= 12,
        tri_negatable(v),
    ensures
        n > 0 ==> exists|k0: int| 0 <= k0 < n && d6(k0, v) == cand_scan(v, n).0,
        n > 0 ==> forall|k: int| 0 <= k < n ==> !tri_less(#[trigger] d6(k, v), cand_scan(v, n).0),
        forall|x: int|
            #[trigger] cand_scan(v, n).1.contains(x) <==> (0 <= x < n && d6(x, v) == cand_scan(
                v,
                n,
            ).0),
    decreases n,
{
    if n == 0 {
        assert forall|x: int| !cand_scan(v, n).1.contains(x) by {}
    } else {
        lemma_cand_scan(v, n - 1);
        let (m, c) = cand_scan(v, n - 1);
        let vk = d6(n - 1, v);
        let (m2, c2) = cand_scan(v, n);
        if tri_less(vk, m) {
            assert(m2 == vk && c2 == seq![n - 1]);
            assert forall|x: int| c2.contains(x) <==> (0 <= x < n && d6(x, v) == m2) by {
                if c2.contains(x) {
                    assert(x == c2[0]);
                }
                if 0 <= x < n && d6(x, v) == m2 {
                    if x < n - 1 {
                        assert(!tri_less(d6(x, v), m));
                    }
                    assert(c2[0] == x);
                }
            }
            assert(d6(n - 1, v) == m2);
        } else if vk == m {
            assert(m2 == m && c2 == c.push(n - 1));
            assert forall|x: int| c2.contains(x) <==> (0 <= x < n && d6(x, v) == m2) by {
                if c2.contains(x) {
                    let i = choose|i: int| 0 <= i < c2.len() && c2[i] == x;
                    assert(0 <= i < c2.len() && c2[i] == x);
                    if i < c.len() {
                        assert(c[i] == x);
                        assert(c.contains(x));
                        assert(0 <= x < n - 1 && d6(x, v) == m);
                    } else {
                        assert(i == c.len());
                        assert(c2[i] == n - 1);
                        assert(x == n - 1);
                        assert(d6(x, v) == m2);
                    }
                }
                if 0 <= x < n && d6(x, v) == m2 {
                    if x < n - 1 {
                        assert(c.contains(x));
                        let i = choose|i: int| 0 <= i < c.len() && c[i] == x;
                        assert(c2[i] == x);
                        assert(c2.contains(x));
                    } else {
                        assert(c2[c.len() as int] == x);
                        assert(c2.contains(x));
                    }
                }
            }
            assert(d6(n - 1, v) == m2);
        } else {
            assert(m2 == m && c2 == c);
            if n - 1 == 0 {
                assert(tri_less(vk, m) || vk == m);
            }
        }
    }
}

/// A symmetry keeps coordinates negatable.
proof fn lemma_d6_negatable(k: int, v: (int, int, int))
    requires
        tri_negatable(v),
    ensures
        tri_negatable(d6(k, v)),
        d6(k, v) == (0int, 0int, 0int) <==> v == (0int, 0int, 0int),
{
}

/// Position `x` of the block starting at `b`.
proof fn lemma_in_block(b: int, x: int)
    requires
        b % 11 == 0,
        0 <= b,
        0 <= x < 11,
    ensures
        ((b + x) / 11) * 11 == b,
        (b + x) % 11 == x,
{
    assert(((b + x) / 11) * 11 == b && (b + x) % 11 == x) by (nonlinear_arith)
        requires
            b % 11 == 0,
            0 <= b,
            0 <= x < 11,
    ;
}

/// The start of the block of index `i`.
proof fn lemma_block_of(i: int)
    requires
        0 <= i < PIECE_FEATURES_LEN,
    ensures
        (i / 11) * 11 % 11 == 0,
        0 <= (i / 11) * 11,
        (i / 11) * 11 + 11 <= PIECE_FEATURES_LEN,
        i == (i / 11) * 11 + i % 11,
        0 <= i % 11 < 11,
{
    assert((i / 11) * 11 % 11 == 0 && 0 <= (i / 11) * 11 && (i / 11) * 11 + 11 <= 308 && i == (i
        / 11) * 11 + i % 11) by (nonlinear_arith)
        requires
            0 <= i < 308,
    ;
}

/// The cube vector of features `off..off + 3` of the block at `b`.
pub open spec fn triple(raw: Seq<i16>, at: int) -> (int, int, int) {
    (raw[at] as int, raw[at + 1] as int, raw[at + 2] as int)
}

/// A symmetry maps each cube vector of each block to its image.
proof fn lemma_transform_triple(raw: Seq<i16>, j: int, b: int, off: int)
    requires
        raw.len() == TOTAL_FN,
        coords_negatable(raw),
        0 <= j < 12,
        b % 11 == 0,
        0 <= b,
        b + 11 <= PIECE_FEATURES_LEN,
        off == 0 || off == 3,
    ensures
        tri_negatable(triple(raw, b + off)),
        triple(transform_spec(raw, j), b + off) == d6(j, triple(raw, b + off)),
{
    let t = transform_spec(raw, j);
    lemma_in_block(b, off);
    lemma_in_block(b, off + 1);
    lemma_in_block(b, off + 2);
    assert(negatable(raw[b + off] as int));
    assert(negatable(raw[b + off + 1] as int));
    assert(negatable(raw[b + off + 2] as int));
    lemma_d6_negatable(j, triple(raw, b + off));
}

/// Applying symmetry `j` and then `k` to a feature vector is applying
/// `d6_mul(k, j)`; the coordinates stay negatable.
pub proof fn lemma_transform_compose(raw: Seq<i16>, j: int, k: int)
    requires
        raw.len() == TOTAL_FN,
        coords_negatable(raw),
        0 <= j < 12,
        0 <= k < 12,
    ensures
        transform_spec(raw, j).len() == TOTAL_FN,
        coords_negatable(transform_spec(raw, j)),
        transform_spec(transform_spec(raw, j), k) == transform_spec(raw, d6_mul(k, j)),
        queen_offset(transform_spec(raw, j)) == d6(j, queen_offset(raw)),
{
    let t = transform_spec(raw, j);
    let m = d6_mul(k, j);
    assert forall|i: int| 0 <= i < PIECE_FEATURES_LEN && i % (PIECE_FN as int) < 6 implies negatable(
        #[trigger] t[i] as int,
    ) by {
        lemma_block_of(i);
        let b = (i / 11) * 11;
        let off = if i % 11 < 3 {
            0int
        } else {
            3int
        };
        lemma_transform_triple(raw, j, b, off);
        lemma_in_block(b, i % 11);
    }
    assert forall|i: int| 0 <= i < TOTAL_FN implies #[trigger] transform_spec(t, k)[i]
        == transform_spec(raw, m)[i] by {
        if i < PIECE_FEATURES_LEN {
            lemma_block_of(i);
            let b = (i / 11) * 11;
            if i % 11 < 6 {
                let off = if i % 11 < 3 {
                    0int
                } else {
                    3int
                };
                lemma_transform_triple(raw, j, b, off);
                lemma_d6_mul(k, j, triple(raw, b + off));
                lemma_d6_negatable(j, triple(raw, b + off));
                lemma_d6_negatable(k, triple(t, b + off));
                lemma_d6_negatable(m, triple(raw, b + off));
            }
        }
    }
    assert(transform_spec(t, k) =~= transform_spec(raw, m));
    lemma_block_of(3);
    lemma_transform_triple(raw, j, 0, 3);
}

/// The queen offset of a feature vector can be negated.
proof fn lemma_queen_negatable(raw: Seq<i16>)
    requires
        raw.len() == TOTAL_FN,
        coords_negatable(raw),
    ensures
        tri_negatable(queen_offset(raw)),
{
    assert(negatable(raw[3] as int));
    assert(negatable(raw[4] as int));
    assert(negatable(raw[5] as int));
}

/// The candidate symmetries are symmetries, and there is at least one.
pub proof fn lemma_candidates_range(raw: Seq<i16>)
    requires
        raw.len() == TOTAL_FN,
        coords_negatable(raw),
    ensures
        candidates(raw).len() > 0,
        forall|x: int| #[trigger] candidates(raw).contains(x) ==> 0 <= x < 12,
        forall|i: int| 0 <= i < candidates(raw).len() ==> 0 <= #[trigger] candidates(raw)[i] < 12,
{
    let q = queen_offset(raw);
    lemma_queen_negatable(raw);
    if q == (0int, 0int, 0int) {
        assert(candidates(raw)[0] == 0);
    } else {
        lemma_cand_scan(q, 12);
        let k0 = choose|k0: int| 0 <= k0 < 12 && d6(k0, q) == cand_scan(q, 12).0;
        assert(candidates(raw).contains(k0));
        assert forall|i: int| 0 <= i < candidates(raw).len() implies 0 <= #[trigger] candidates(
            raw,
        )[i] < 12 by {
            assert(candidates(raw).contains(candidates(raw)[i]));
        }
    }
}

/// Seen under symmetry `j`, a position has as candidates the symmetries
/// that, after `j`, are candidates of the position as it was.
pub proof fn lemma_candidates_transform(raw: Seq<i16>, j: int)
    requires
        raw.len() == TOTAL_FN,
        coords_negatable(raw),
        0 <= j < 12,
    ensures
        forall|k: int|
            0 <= k < 12 ==> (#[trigger] candidates(transform_spec(raw, j)).contains(k)
                <==> candidates(raw).contains(d6_mul(k, j))),
{
    let t = transform_spec(raw, j);
    let q = queen_offset(raw);
    lemma_transform_compose(raw, j, 0);
    let q2 = queen_offset(t);
    assert(q2 == d6(j, q));
    lemma_queen_negatable(raw);
    lemma_d6_negatable(j, q);
    if q == (0int, 0int, 0int) {
        assert forall|k: int| 0 <= k < 12 implies (#[trigger] candidates(t).contains(k)
            <==> candidates(raw).contains(d6_mul(k, j))) by {
            lemma_d6_mul(k, j, q);
            assert(candidates(t)[k] == k);
            assert(candidates(raw)[d6_mul(k, j)] == d6_mul(k, j));
        }
    } else {
        lemma_cand_scan(q, 12);
        lemma_cand_scan(q2, 12);
        let m = cand_scan(q, 12).0;
        let m2 = cand_scan(q2, 12).0;
        let k0 = choose|k0: int| 0 <= k0 < 12 && d6(k0, q) == m;
        let k2 = choose|k2: int| 0 <= k2 < 12 && d6(k2, q2) == m2;
        lemma_d6_mul(k2, j, q);
        assert(!tri_less(d6(d6_mul(k2, j), q), m));
        let k1 = lemma_d6_mul_onto(k0, j);
        lemma_d6_mul(k1, j, q);
        assert(!tri_less(d6(k1, q2), m2));
        assert(m == m2);
        assert forall|k: int| 0 <= k < 12 implies (#[trigger] candidates(t).contains(k)
            <==> candidates(raw).contains(d6_mul(k, j))) by {
            lemma_d6_mul(k, j, q);
        }
    }
}

/// The candidate form of symmetry `k`: the symmetry applied, then the
/// pieces of each type put in order.
pub open spec fn form(raw: Seq<i16>, k: int) -> Seq<i16> {
    sort_groups_spec(transform_spec(raw, k))
}

/// Candidate forms are as long as the feature vector.
proof fn lemma_form_len(raw: Seq<i16>, k: int)
    ensures
        form(raw, k).len() == raw.len(),
{
    reveal(sort_groups_spec);
}

/// The scan over the first `n` candidates keeps one of their forms that
/// none of them comes before.
pub proof fn lemma_canon_scan(raw: Seq<i16>, cands: Seq<int>, n: int)
    requires
        1 <= n <= cands.len(),
        raw.len() == TOTAL_FN,
    ensures
        exists|i: int| 0 <= i < n && canon_scan(raw, cands, n) == form(raw, cands[i]),
        forall|i: int|
            0 <= i < n ==> !lex_less_from(#[trigger] form(raw, cands[i]), canon_scan(raw, cands, n), 0),
        canon_scan(raw, cands, n).len() == TOTAL_FN,
    decreases n,
{
    let cand = form(raw, cands[n - 1]);
    lemma_form_len(raw, cands[n - 1]);
    if n == 1 {
        lemma_lex_irreflexive(cand, 0);
        assert(canon_scan(raw, cands, n) == cand);
    } else {
        lemma_canon_scan(raw, cands, n - 1);
        let prev = canon_scan(raw, cands, n - 1);
        if lex_less_from(cand, prev, 0) {
            assert(canon_scan(raw, cands, n) == cand);
            assert forall|i: int| 0 <= i < n implies !lex_less_from(
                #[trigger] form(raw, cands[i]),
                cand,
                0,
            ) by {
                lemma_form_len(raw, cands[i]);
                if i == n - 1 {
                    lemma_lex_irreflexive(cand, 0);
                } else if lex_less_from(form(raw, cands[i]), cand, 0) {
                    lemma_lex_transitive(form(raw, cands[i]), cand, prev, 0);
                }
            }
        } else {
            assert(canon_scan(raw, cands, n) == prev);
            let i0 = choose|i: int| 0 <= i < n - 1 && prev == form(raw, cands[i]);
            assert(0 <= i0 < n && canon_scan(raw, cands, n) == form(raw, cands[i0]));
        }
    }
}

/// The canonical form of a feature vector is the same under all twelve
/// symmetries of the hex grid: a position seen rotated or reflected has the
/// canonical form of the position itself.
pub proof fn lemma_canonical_symmetric(raw: Seq<i16>, j: int)
    requires
        raw.len() == TOTAL_FN,
        coords_negatable(raw),
        0 <= j < 12,
    ensures
        canonical(transform_spec(raw, j)) == canonical(raw),
{
    let t = transform_spec(raw, j);
    lemma_transform_compose(raw, j, 0);
    lemma_candidates_range(raw);
    lemma_candidates_range(t);
    lemma_candidates_transform(raw, j);
    let c1 = candidates(raw);
    let c2 = candidates(t);
    lemma_canon_scan(raw, c1, c1.len() as int);
    lemma_canon_scan(t, c2, c2.len() as int);
    let m1 = canonical(raw);
    let m2 = canonical(t);
    // the canonical form of `t` is a candidate form of `raw`
    let i2 = choose|i: int| 0 <= i < c2.len() && m2 == form(t, c2[i]);
    let k2 = c2[i2];
    assert(c2.contains(k2));
    assert(c1.contains(d6_mul(k2, j)));
    let ia = choose|i: int| 0 <= i < c1.len() && c1[i] == d6_mul(k2, j);
    lemma_transform_compose(raw, j, k2);
    assert(m2 == form(raw, c1[ia]));
    assert(!lex_less_from(m2, m1, 0));
    // the canonical form of `raw` is a candidate form of `t`
    let i1 = choose|i: int| 0 <= i < c1.len() && m1 == form(raw, c1[i]);
    let c = c1[i1];
    assert(c1.contains(c));
    let k1 = lemma_d6_mul_onto(c, j);
    assert(c2.contains(k1));
    let ib = choose|i: int| 0 <= i < c2.len() && c2[i] == k1;
    lemma_transform_compose(raw, j, k1);
    assert(m1 == form(t, c2[ib]));
    assert(!lex_less_from(m1, m2, 0));
    lemma_lex_total(m1, m2, 0);
    assert(m1 =~= m2);
}

} // verus!
