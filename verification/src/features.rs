//! Position features for the evaluation: per piece slot, hex cube offsets
//! to both queens, neighbour counts, mobility flags; plus a histogram of
//! adjacent piece categories. Feature vectors are put in a canonical form
//! under the twelve symmetries of the hex grid and the order of pieces of
//! the same type.

use vstd::prelude::*;
use crate::board::{tot_qty, Board};
use crate::piece_type::{PieceType, pct_index};
use crate::tile::{spec_tile_to_loc, tile_to_loc, Tile, GRID_SIZE};

verus! {

/// Piece slots per player.
pub const PIECES_PER_SIDE: usize = 14;

/// Features per piece slot.
pub const PIECE_FN: usize = 11;

/// Length of the per-piece part of a feature vector.
pub const PIECE_FEATURES_LEN: usize = 308;

/// Number of adjacency categories.
pub const ADJ_SIZE: usize = 128;

/// Length of a feature vector.
pub const TOTAL_FN: usize = 436;

/// First slot of each piece type.
pub open spec fn piece_offset(p: PieceType) -> int {
    match p {
        PieceType::Queen => 0,
        PieceType::Grasshopper => 1,
        PieceType::Spider => 4,
        PieceType::Ant => 6,
        PieceType::Beetle => 9,
        PieceType::Mosquito => 11,
        PieceType::Ladybug => 12,
        PieceType::Pillbug => 13,
    }
}

/// The slot of piece number `n` of type `p`.
pub open spec fn slot_of(p: PieceType, n: int) -> int {
    piece_offset(p) + n - 1
}

impl Board {
    /// The slot of piece number `num` of type `pct`.
    pub fn piece_slot(pct: PieceType, num: u8) -> (r: usize)
        requires
            1 <= num <= tot_qty(pct_index(pct)),
        ensures
            r == slot_of(pct, num as int),
    {
        let offset: usize = match pct {
            PieceType::Queen => 0,
            PieceType::Grasshopper => 1,
            PieceType::Spider => 4,
            PieceType::Ant => 6,
            PieceType::Beetle => 9,
            PieceType::Mosquito => 11,
            PieceType::Ladybug => 12,
            PieceType::Pillbug => 13,
        };
        offset + (num - 1) as usize
    }
}

/// Each piece of a player has its own slot, and every slot has a piece.
pub proof fn lemma_piece_slot_bijective(p1: PieceType, n1: int, p2: PieceType, n2: int, slot: int)
    requires
        1 <= n1 <= tot_qty(pct_index(p1)),
        1 <= n2 <= tot_qty(pct_index(p2)),
    ensures
        0 <= slot_of(p1, n1) < PIECES_PER_SIDE,
        slot_of(p1, n1) == slot_of(p2, n2) ==> p1 == p2 && n1 == n2,
        0 <= slot < PIECES_PER_SIDE ==> exists|p: PieceType, n: int|
            1 <= n <= tot_qty(pct_index(p)) && #[trigger] slot_of(p, n) == slot,
{
    if 0 <= slot < PIECES_PER_SIDE {
        let p = if slot == 0 {
            PieceType::Queen
        } else if slot < 4 {
            PieceType::Grasshopper
        } else if slot < 6 {
            PieceType::Spider
        } else if slot < 9 {
            PieceType::Ant
        } else if slot < 11 {
            PieceType::Beetle
        } else if slot == 11 {
            PieceType::Mosquito
        } else if slot == 12 {
            PieceType::Ladybug
        } else {
            PieceType::Pillbug
        };
        let n = slot - piece_offset(p) + 1;
        assert(1 <= n <= tot_qty(pct_index(p)) && slot_of(p, n) == slot);
    }
}

/// A coordinate difference on the wrapping 32-wide grid, brought into
/// `-16..=16`.
pub open spec fn wrap32(d: int) -> int {
    if d > 16 {
        d - 32
    } else if d < -16 {
        d + 32
    } else {
        d
    }
}

/// The hex cube offset `(dq, dr, ds)` from tile `from` to tile `to`, with
/// `dq + dr + ds == 0`.
pub open spec fn cube_delta_spec(from: int, to: int) -> (int, int, int) {
    let (y1, x1) = spec_tile_to_loc(from);
    let (y2, x2) = spec_tile_to_loc(to);
    let dx = wrap32(x2 - x1);
    let dy = wrap32(y2 - y1);
    (dy - dx, dx, -dy)
}

impl Board {
    /// The hex cube offset from `from_tile` to `to_tile`.
    pub fn cube_delta(from_tile: Tile, to_tile: Tile) -> (r: (i16, i16, i16))
        requires
            from_tile < GRID_SIZE,
            to_tile < GRID_SIZE,
        ensures
            (r.0 as int, r.1 as int, r.2 as int) == cube_delta_spec(from_tile as int, to_tile as int),
    {
        let (y1, x1) = tile_to_loc(from_tile);
        let (y2, x2) = tile_to_loc(to_tile);
        let mut dx = (x2 as i16) - (x1 as i16);
        if dx > 16 {
            dx -= 32;
        } else if dx < -16 {
            dx += 32;
        }
        let mut dy = (y2 as i16) - (y1 as i16);
        if dy > 16 {
            dy -= 32;
        } else if dy < -16 {
            dy += 32;
        }
        (dy - dx, dx, -dy)
    }
}

/// Cube offsets are antisymmetric, sum to zero, and vanish from a tile to
/// itself.
pub proof fn lemma_cube_delta(a: int, b: int)
    requires
        0 <= a < GRID_SIZE,
        0 <= b < GRID_SIZE,
    ensures
        cube_delta_spec(a, b).0 == -cube_delta_spec(b, a).0,
        cube_delta_spec(a, b).1 == -cube_delta_spec(b, a).1,
        cube_delta_spec(a, b).2 == -cube_delta_spec(b, a).2,
        cube_delta_spec(a, b).0 + cube_delta_spec(a, b).1 + cube_delta_spec(a, b).2 == 0,
        cube_delta_spec(a, a) == (0int, 0int, 0int),
{
}

/// Adjacency category `i` (color times 8 plus piece type) has a single
/// piece, so it cannot be next to itself.
pub open spec fn adj_excluded(i: int) -> bool {
    i % 8 == 0 || i % 8 >= 5
}

/// Number of category pairs `(i', j')`, `i' <= j' < 16`, with `i' < i`,
/// leaving out a single-piece category paired with itself.
pub open spec fn row_start(i: int) -> int
    decreases i,
{
    if i <= 0 {
        0
    } else {
        row_start(i - 1) + (16 - (i - 1)) - (if adj_excluded(i - 1) {
            1int
        } else {
            0int
        })
    }
}

/// Rows start no further than 16 pairs apart.
pub proof fn lemma_row_start_bound(i: int)
    requires
        0 <= i <= 16,
    ensures
        0 <= row_start(i) <= 16 * i,
    decreases i,
{
    if i > 0 {
        lemma_row_start_bound(i - 1);
    }
}

/// The index of the pair of categories `c1`, `c2` (in either order) among
/// all pairs in row order; none for a single-piece category paired with
/// itself or a category from 16 on.
#[verifier::opaque]
pub open spec fn adj_idx_spec(c1: int, c2: int) -> Option<int> {
    let a = if c1 <= c2 {
        c1
    } else {
        c2
    };
    let b = if c1 <= c2 {
        c2
    } else {
        c1
    };
    if a == b && adj_excluded(a) {
        None
    } else if b >= 16 {
        None
    } else {
        Some(
            row_start(a) + (b - a) - (if adj_excluded(a) && b > a {
                1int
            } else {
                0int
            }),
        )
    }
}

impl Board {
    /// The index of the pair of adjacency categories `c1`, `c2` (see
    /// `adj_idx_spec`).
    pub fn adj_idx(c1: usize, c2: usize) -> (r: Option<usize>)
        ensures
            r matches Some(k) ==> adj_idx_spec(c1 as int, c2 as int) == Some(k as int),
            r is None ==> adj_idx_spec(c1 as int, c2 as int) is None,
    {
        reveal(adj_idx_spec);
        let (lo, hi) = if c1 > c2 {
            (c2, c1)
        } else {
            (c1, c2)
        };
        if lo == hi && (lo % 8 == 0 || lo % 8 >= 5) {
            return None;
        }
        let mut idx: usize = 0;
        let mut i: usize = 0;
        while i < 16
            invariant
                0 <= i <= 16,
                lo <= hi,
                lo == (if c1 <= c2 { c1 } else { c2 }),
                hi == (if c1 <= c2 { c2 } else { c1 }),
                !(lo == hi && adj_excluded(lo as int)),
                idx == row_start(i as int),
                (lo as int) >= (i as int) || hi >= 16,
            decreases 16 - i,
        {
            proof {
                lemma_row_start_bound(i as int);
            }
            let mut j = i;
            while j < 16
                invariant
                    0 <= i < 16,
                    i <= j <= 16,
                    lo <= hi,
                    lo == (if c1 <= c2 { c1 } else { c2 }),
                    hi == (if c1 <= c2 { c2 } else { c1 }),
                    !(lo == hi && adj_excluded(lo as int)),
                    (lo as int) >= (i as int) || hi >= 16,
                    idx == row_start(i as int) + (j - i) - (if adj_excluded(i as int) && j > i {
                        1int
                    } else {
                        0int
                    }),
                    !(i == lo && j > hi),
                    0 <= row_start(i as int) <= 16 * i,
                decreases 16 - j,
            {
                if !(i == j && (i % 8 == 0 || i % 8 >= 5)) {
                    if i == lo && j == hi {
                        proof {
                            reveal(adj_idx_spec);
                        }
                        return Some(idx);
                    }
                    idx += 1;
                }
                j += 1;
            }
            i += 1;
        }
        None
    }
}

/// The `k`-th symmetry of the hex grid (six rotations, then six
/// reflections) applied to the cube vector `v`.
pub open spec fn d6(k: int, v: (int, int, int)) -> (int, int, int) {
    let (q, r, s) = v;
    if k == 0 {
        (q, r, s)
    } else if k == 1 {
        (-s, -q, -r)
    } else if k == 2 {
        (r, s, q)
    } else if k == 3 {
        (-q, -r, -s)
    } else if k == 4 {
        (s, q, r)
    } else if k == 5 {
        (-r, -s, -q)
    } else if k == 6 {
        (-q, -s, -r)
    } else if k == 7 {
        (r, q, s)
    } else if k == 8 {
        (-s, -r, -q)
    } else if k == 9 {
        (q, s, r)
    } else if k == 10 {
        (-r, -q, -s)
    } else {
        (s, r, q)
    }
}

/// A 16-bit coordinate that can be negated.
pub open spec fn negatable(x: int) -> bool {
    -32767 <= x <= 32767
}

/// The `k`-th symmetry of the hex grid applied to `(q, r, s)`.
pub fn d6_transform(k: usize, q: i16, r: i16, s: i16) -> (t: (i16, i16, i16))
    requires
        k < 12,
        negatable(q as int),
        negatable(r as int),
        negatable(s as int),
    ensures
        (t.0 as int, t.1 as int, t.2 as int) == d6(k as int, (q as int, r as int, s as int)),
{
    match k {
        0 => (q, r, s),
        1 => (-s, -q, -r),
        2 => (r, s, q),
        3 => (-q, -r, -s),
        4 => (s, q, r),
        5 => (-r, -s, -q),
        6 => (-q, -s, -r),
        7 => (r, q, s),
        8 => (-s, -r, -q),
        9 => (q, s, r),
        10 => (-r, -q, -s),
        _ => (s, r, q),
    }
}

/// Lexicographic order on cube vectors.
pub open spec fn tri_less(a: (int, int, int), b: (int, int, int)) -> bool {
    a.0 < b.0 || (a.0 == b.0 && (a.1 < b.1 || (a.1 == b.1 && a.2 < b.2)))
}

/// `x` comes before `y` in lexicographic order, looking from index `i`
/// on (both of the same length).
pub open spec fn lex_less_from(x: Seq<i16>, y: Seq<i16>, i: int) -> bool
    decreases x.len() - i,
{
    if i < 0 || i >= x.len() || i >= y.len() {
        false
    } else if x[i] < y[i] {
        true
    } else if x[i] > y[i] {
        false
    } else {
        lex_less_from(x, y, i + 1)
    }
}

/// The block of features of the piece slot starting at `start`.
pub open spec fn block(v: Seq<i16>, start: int) -> Seq<i16> {
    v.subrange(start, start + PIECE_FN as int)
}

/// Exchanges the piece blocks starting at `a` and `b`.
pub open spec fn swap_blocks(v: Seq<i16>, a: int, b: int) -> Seq<i16> {
    Seq::new(
        v.len(),
        |i: int|
            if a <= i < a + PIECE_FN {
                v[i - a + b]
            } else if b <= i < b + PIECE_FN {
                v[i - b + a]
            } else {
                v[i]
            },
    )
}

/// Orders two consecutive blocks from `st`.
pub open spec fn sort2_spec(v: Seq<i16>, st: int) -> Seq<i16> {
    let b = st + PIECE_FN;
    if lex_less_from(block(v, b), block(v, st), 0) {
        swap_blocks(v, st, b)
    } else {
        v
    }
}

/// Orders three consecutive blocks from `st` with a sorting network.
pub open spec fn sort3_spec(v: Seq<i16>, st: int) -> Seq<i16> {
    let a = st;
    let b = st + PIECE_FN;
    let c = st + 2 * PIECE_FN;
    let v1 = if lex_less_from(block(v, b), block(v, a), 0) {
        swap_blocks(v, a, b)
    } else {
        v
    };
    if lex_less_from(block(v1, c), block(v1, b), 0) {
        let v2 = swap_blocks(v1, b, c);
        if lex_less_from(block(v2, b), block(v2, a), 0) {
            swap_blocks(v2, a, b)
        } else {
            v2
        }
    } else {
        v1
    }
}

/// Orders the blocks of the pieces of each type a player has several of:
/// grasshoppers, spiders, ants, beetles, for both players.
#[verifier::opaque]
pub open spec fn sort_groups_spec(v: Seq<i16>) -> Seq<i16> {
    let f = PIECE_FN as int;
    let v1 = sort3_spec(v, 1 * f);
    let v2 = sort2_spec(v1, 4 * f);
    let v3 = sort3_spec(v2, 6 * f);
    let v4 = sort2_spec(v3, 9 * f);
    let v5 = sort3_spec(v4, 15 * f);
    let v6 = sort2_spec(v5, 18 * f);
    let v7 = sort3_spec(v6, 20 * f);
    sort2_spec(v7, 23 * f)
}

/// Is `x` lexicographically before `y` (equal lengths)?
fn lex_less(x: &[i16], xs: usize, y: &[i16], ys: usize, n: usize) -> (r: bool)
    requires
        xs + n <= x@.len(),
        ys + n <= y@.len(),
    ensures
        r == lex_less_from(x@.subrange(xs as int, xs + n), y@.subrange(ys as int, ys + n), 0),
{
    let ghost xa = x@.subrange(xs as int, xs + n);
    let ghost ya = y@.subrange(ys as int, ys + n);
    let xl = x.len();
    let yl = y.len();
    let mut i: usize = 0;
    while i < n
        invariant
            0 <= i <= n,
            xl == x@.len(),
            yl == y@.len(),
            xs + n <= x@.len(),
            ys + n <= y@.len(),
            xa == x@.subrange(xs as int, xs + n),
            ya == y@.subrange(ys as int, ys + n),
            lex_less_from(xa, ya, 0) == lex_less_from(xa, ya, i as int),
        decreases n - i,
    {
        let a = x[xs + i];
        let b = y[ys + i];
        assert(xa[i as int] == a && ya[i as int] == b);
        if a < b {
            return true;
        }
        if a > b {
            return false;
        }
        i += 1;
    }
    false
}

/// Exchanges the piece blocks starting at `a` and `b`.
fn swap_block(v: &mut [i16; 436], a: usize, b: usize)
    requires
        a + PIECE_FN <= b,
        b + PIECE_FN <= TOTAL_FN,
    ensures
        final(v)@ == swap_blocks(old(v)@, a as int, b as int),
{
    let mut i: usize = 0;
    while i < PIECE_FN
        invariant
            0 <= i <= PIECE_FN,
            a + PIECE_FN <= b,
            b + PIECE_FN <= TOTAL_FN,
            v@.len() == TOTAL_FN,
            forall|k: int| 0 <= k < TOTAL_FN ==> v@[k] == if a <= k < a + i {
                old(v)@[k - a + b]
            } else if b <= k < b + i {
                old(v)@[k - b + a]
            } else {
                old(v)@[k]
            },
        decreases PIECE_FN - i,
    {
        let t = v[a + i];
        v[a + i] = v[b + i];
        v[b + i] = t;
        i += 1;
    }
    assert(v@ =~= swap_blocks(old(v)@, a as int, b as int));
}

/// Orders two consecutive blocks from `st`.
fn sort_2(v: &mut [i16; 436], st: usize)
    requires
        st + 2 * PIECE_FN <= TOTAL_FN,
    ensures
        final(v)@ == sort2_spec(old(v)@, st as int),
{
    let b = st + PIECE_FN;
    if lex_less(v, b, v, st, PIECE_FN) {
        swap_block(v, st, b);
    }
}

/// Orders three consecutive blocks from `st`.
fn sort_3(v: &mut [i16; 436], st: usize)
    requires
        st + 3 * PIECE_FN <= TOTAL_FN,
    ensures
        final(v)@ == sort3_spec(old(v)@, st as int),
{
    let a = st;
    let b = st + PIECE_FN;
    let c = st + 2 * PIECE_FN;
    if lex_less(v, b, v, a, PIECE_FN) {
        swap_block(v, a, b);
    }
    if lex_less(v, c, v, b, PIECE_FN) {
        swap_block(v, b, c);
        if lex_less(v, b, v, a, PIECE_FN) {
            swap_block(v, a, b);
        }
    }
}

/// Orders the blocks of same-type pieces (see `sort_groups_spec`).
pub fn sort_all_piece_groups(v: &mut [i16; 436])
    ensures
        final(v)@ == sort_groups_spec(old(v)@),
{
    reveal(sort_groups_spec);
    sort_3(v, 1 * PIECE_FN);
    sort_2(v, 4 * PIECE_FN);
    sort_3(v, 6 * PIECE_FN);
    sort_2(v, 9 * PIECE_FN);
    sort_3(v, 15 * PIECE_FN);
    sort_2(v, 18 * PIECE_FN);
    sort_3(v, 20 * PIECE_FN);
    sort_2(v, 23 * PIECE_FN);
}

/// Component `f` of a cube vector.
pub open spec fn comp(t: (int, int, int), f: int) -> int {
    if f == 0 {
        t.0
    } else if f == 1 {
        t.1
    } else {
        t.2
    }
}

/// The features with symmetry `k` applied to both cube offsets of every
/// piece slot.
pub open spec fn transform_spec(raw: Seq<i16>, k: int) -> Seq<i16> {
    Seq::new(
        raw.len(),
        |i: int|
            if i < PIECE_FEATURES_LEN {
                let base = (i / PIECE_FN as int) * PIECE_FN as int;
                let f = i % PIECE_FN as int;
                if f < 3 {
                    comp(d6(k, (raw[base] as int, raw[base + 1] as int, raw[base + 2] as int)), f) as i16
                } else if f < 6 {
                    comp(
                        d6(k, (raw[base + 3] as int, raw[base + 4] as int, raw[base + 5] as int)),
                        f - 3,
                    ) as i16
                } else {
                    raw[i]
                }
            } else {
                raw[i]
            },
    )
}

/// Every cube offset of the features can be negated.
pub open spec fn coords_negatable(raw: Seq<i16>) -> bool {
    forall|i: int| 0 <= i < PIECE_FEATURES_LEN && i % (PIECE_FN as int) < 6 ==> negatable(#[trigger] raw[i] as int)
}

/// The smallest image of `v` under the first `k` symmetries, and the
/// symmetries reaching it, in order.
pub open spec fn cand_scan(v: (int, int, int), k: int) -> ((int, int, int), Seq<int>)
    decreases k,
{
    if k <= 0 {
        ((32767, 32767, 32767), Seq::empty())
    } else {
        let (m, c) = cand_scan(v, k - 1);
        let vk = d6(k - 1, v);
        if tri_less(vk, m) {
            (vk, seq![k - 1])
        } else if vk == m {
            (m, c.push(k - 1))
        } else {
            (m, c)
        }
    }
}

/// The offset of the white queen from the black queen.
pub open spec fn queen_offset(raw: Seq<i16>) -> (int, int, int) {
    (raw[3] as int, raw[4] as int, raw[5] as int)
}

/// The symmetries worth trying: those that make the queen offset
/// smallest, or all when the queens are not both placed.
pub open spec fn candidates(raw: Seq<i16>) -> Seq<int> {
    if queen_offset(raw) == (0int, 0int, 0int) {
        Seq::new(12, |k: int| k)
    } else {
        cand_scan(queen_offset(raw), 12).1
    }
}

/// The smallest, in lexicographic order, of the first `i` candidate forms
/// (each symmetry applied, then same-type pieces ordered); the first one
/// among equals.
pub open spec fn canon_scan(raw: Seq<i16>, cands: Seq<int>, i: int) -> Seq<i16>
    decreases i,
{
    if i <= 0 {
        Seq::new(TOTAL_FN as nat, |j: int| 0i16)
    } else {
        let prev = canon_scan(raw, cands, i - 1);
        let cand = sort_groups_spec(transform_spec(raw, cands[i - 1]));
        if i - 1 == 0 || lex_less_from(cand, prev, 0) {
            cand
        } else {
            prev
        }
    }
}

/// The canonical form of a feature vector.
pub open spec fn canonical(raw: Seq<i16>) -> Seq<i16> {
    canon_scan(raw, candidates(raw), candidates(raw).len() as int)
}

/// The form of the features `raw` under the candidate symmetry `k`: the
/// symmetry applied, then the pieces of each type ordered.
pub open spec fn candidate_form(raw: Seq<i16>, k: int) -> Seq<i16> {
    sort_groups_spec(transform_spec(raw, k))
}

/// No sequence comes before itself.
proof fn lemma_lex_irreflexive(x: Seq<i16>, i: int)
    ensures
        !lex_less_from(x, x, i),
    decreases x.len() - i,
{
    if 0 <= i < x.len() {
        lemma_lex_irreflexive(x, i + 1);
    }
}

/// Coming before is transitive.
proof fn lemma_lex_transitive(x: Seq<i16>, y: Seq<i16>, z: Seq<i16>, i: int)
    requires
        lex_less_from(x, y, i),
        lex_less_from(y, z, i),
    ensures
        lex_less_from(x, z, i),
    decreases x.len() - i,
{
    if x[i] == y[i] && y[i] == z[i] {
        lemma_lex_transitive(x, y, z, i + 1);
    }
}

/// After the first `i` candidates, the scan holds one of their forms, and
/// none of them comes before it.
proof fn lemma_canon_scan_min(raw: Seq<i16>, cands: Seq<int>, i: int)
    requires
        1 <= i <= cands.len(),
    ensures
        exists|j: int| 0 <= j < i && canon_scan(raw, cands, i) == #[trigger] candidate_form(raw, cands[j]),
        forall|j: int| 0 <= j < i ==> !lex_less_from(#[trigger] candidate_form(raw, cands[j]), canon_scan(raw, cands, i), 0),
    decreases i,
{
    let cand = candidate_form(raw, cands[i - 1]);
    if i == 1 {
        lemma_lex_irreflexive(cand, 0);
        assert(canon_scan(raw, cands, 1) == candidate_form(raw, cands[0]));
    } else {
        lemma_canon_scan_min(raw, cands, i - 1);
        let prev = canon_scan(raw, cands, i - 1);
        if lex_less_from(cand, prev, 0) {
            lemma_lex_irreflexive(cand, 0);
            assert forall|j: int| 0 <= j < i implies !lex_less_from(#[trigger] candidate_form(raw, cands[j]), cand, 0) by {
                if j < i - 1 && lex_less_from(candidate_form(raw, cands[j]), cand, 0) {
                    lemma_lex_transitive(candidate_form(raw, cands[j]), cand, prev, 0);
                }
            }
            assert(canon_scan(raw, cands, i) == candidate_form(raw, cands[i - 1]));
        } else {
            let j0 = choose|j: int| 0 <= j < i - 1 && prev == #[trigger] candidate_form(raw, cands[j]);
            assert(canon_scan(raw, cands, i) == candidate_form(raw, cands[j0]));
        }
    }
}

/// The scan keeps at least one symmetry.
proof fn lemma_cand_scan_nonempty(v: (int, int, int), k: int)
    requires
        1 <= k,
        v.0 <= 32767 && v.1 <= 32767 && v.2 <= 32767,
    ensures
        cand_scan(v, k).1.len() > 0,
    decreases k,
{
    if k > 1 {
        lemma_cand_scan_nonempty(v, k - 1);
    } else {
        assert(cand_scan(v, 0) == ((32767int, 32767int, 32767int), Seq::<int>::empty()));
        assert(d6(0, v) == v);
        assert(tri_less(v, (32767int, 32767int, 32767int)) || v == (32767int, 32767int, 32767int));
    }
}

/// The canonical form of `raw` is the least, in lexicographic order, of
/// its candidate forms (see `candidates` and `candidate_form`).
pub proof fn lemma_canonical_is_least(raw: Seq<i16>)
    ensures
        exists|j: int| 0 <= j < candidates(raw).len() && canonical(raw) == #[trigger] candidate_form(raw, candidates(raw)[j]),
        forall|j: int|
            0 <= j < candidates(raw).len() ==> !lex_less_from(#[trigger] candidate_form(raw, candidates(raw)[j]), canonical(raw), 0),
{
    if queen_offset(raw) != (0int, 0int, 0int) {
        lemma_cand_scan_nonempty(queen_offset(raw), 12);
    }
    lemma_canon_scan_min(raw, candidates(raw), candidates(raw).len() as int);
}

/// The features with symmetry `k` applied (see `transform_spec`).
fn apply_transform(raw: &[i16; 436], k: usize) -> (r: [i16; 436])
    requires
        k < 12,
        coords_negatable(raw@),
    ensures
        r@ == transform_spec(raw@, k as int),
{
    let mut out = *raw;
    let mut p: usize = 0;
    while p < 2 * PIECES_PER_SIDE
        invariant
            0 <= p <= 2 * PIECES_PER_SIDE,
            k < 12,
            coords_negatable(raw@),
            forall|i: int| 0 <= i < TOTAL_FN ==> out@[i] == if i < p * PIECE_FN {
                transform_spec(raw@, k as int)[i]
            } else {
                raw@[i]
            },
        decreases 2 * PIECES_PER_SIDE - p,
    {
        let base = p * PIECE_FN;
        assert(raw@[base as int] == raw[base as int]);
        assert(negatable(raw@[base as int] as int) && negatable(raw@[base + 1] as int) && negatable(raw@[base + 2] as int)
            && negatable(raw@[base + 3] as int) && negatable(raw@[base + 4] as int) && negatable(raw@[base + 5] as int)) by {
            assert((base as int) % 11 == 0 && (base + 1) % 11 == 1 && (base + 2) % 11 == 2 && (base + 3) % 11 == 3
                && (base + 4) % 11 == 4 && (base + 5) % 11 == 5) by (nonlinear_arith)
                requires base == p * 11;
        }
        let (qw, rw, sw) = d6_transform(k, raw[base], raw[base + 1], raw[base + 2]);
        let (qb, rb, sb) = d6_transform(k, raw[base + 3], raw[base + 4], raw[base + 5]);
        out[base] = qw;
        out[base + 1] = rw;
        out[base + 2] = sw;
        out[base + 3] = qb;
        out[base + 4] = rb;
        out[base + 5] = sb;
        assert forall|i: int| base <= i < base + PIECE_FN implies out@[i] == #[trigger] transform_spec(raw@, k as int)[i] by {
            assert((i / 11) * 11 == base && i % 11 == i - base) by (nonlinear_arith)
                requires base == p * 11, base <= i < base + 11;
        }
        p += 1;
    }
    assert(out@ =~= transform_spec(raw@, k as int));
    out
}

impl Board {
    /// The canonical form of a feature vector: among the symmetries that make
    /// the queen offset smallest (all of them when it is zero), the
    /// lexicographically smallest transformed vector with same-type pieces
    /// ordered.
    pub fn canonicalize_features(raw: &[i16; 436]) -> (r: [i16; 436])
        requires
            coords_negatable(raw@),
        ensures
            r@ == canonical(raw@),
    {
        let mut cands = [0usize; 12];
        let mut n_cands: usize = 0;
        let ghost v = queen_offset(raw@);
        assert(negatable(raw@[3] as int) && negatable(raw@[4] as int) && negatable(raw@[5] as int));
        if raw[3] != 0 || raw[4] != 0 || raw[5] != 0 {
            let mut min_v: (i16, i16, i16) = (i16::MAX, i16::MAX, i16::MAX);
            let mut k: usize = 0;
            while k < 12
                invariant
                    0 <= k <= 12,
                    v == queen_offset(raw@),
                    negatable(v.0) && negatable(v.1) && negatable(v.2),
                    0 <= n_cands <= k,
                    ((min_v.0 as int, min_v.1 as int, min_v.2 as int), cands@.subrange(0, n_cands as int).map_values(|x: usize| x as int)) == cand_scan(v, k as int),
                    forall|j: int| 0 <= j < n_cands ==> cands@[j] < 12,
                decreases 12 - k,
            {
                let vk = d6_transform(k, raw[3], raw[4], raw[5]);
                let ghost c0 = cands@.subrange(0, n_cands as int);
                if vk.0 < min_v.0 || (vk.0 == min_v.0 && (vk.1 < min_v.1 || (vk.1 == min_v.1 && vk.2 < min_v.2))) {
                    min_v = vk;
                    cands[0] = k;
                    n_cands = 1;
                    assert(cands@.subrange(0, 1).map_values(|x: usize| x as int) =~= seq![k as int]);
                } else if vk.0 == min_v.0 && vk.1 == min_v.1 && vk.2 == min_v.2 {
                    cands[n_cands] = k;
                    n_cands += 1;
                    assert(cands@.subrange(0, n_cands as int).map_values(|x: usize| x as int) =~= c0.map_values(|x: usize| x as int).push(k as int));
                }
                k += 1;
            }
        } else {
            let mut k: usize = 0;
            while k < 12
                invariant
                    0 <= k <= 12,
                    forall|j: int| 0 <= j < k ==> cands@[j] == j,
                decreases 12 - k,
            {
                cands[k] = k;
                k += 1;
            }
            n_cands = 12;
            assert(cands@.subrange(0, 12).map_values(|x: usize| x as int) =~= Seq::new(12, |k: int| k));
        }
        let ghost cs = candidates(raw@);
        assert(cs == cands@.subrange(0, n_cands as int).map_values(|x: usize| x as int));
        if n_cands == 1 {
            let mut out = apply_transform(raw, cands[0]);
            sort_all_piece_groups(&mut out);
            return out;
        }
        let mut best = [0i16; 436];
        let mut first = true;
        let mut i: usize = 0;
        assert(best@ =~= canon_scan(raw@, cs, 0));
        while i < n_cands
            invariant
                0 <= i <= n_cands <= 12,
                coords_negatable(raw@),
                cs == cands@.subrange(0, n_cands as int).map_values(|x: usize| x as int),
                forall|j: int| 0 <= j < n_cands ==> cands@[j] < 12,
                first == (i == 0),
                best@ == canon_scan(raw@, cs, i as int),
            decreases n_cands - i,
        {
            let mut cand = apply_transform(raw, cands[i]);
            sort_all_piece_groups(&mut cand);
            assert(cs[i as int] == cands@[i as int]);
            assert(cand@.subrange(0, TOTAL_FN as int) =~= cand@);
            assert(best@.subrange(0, TOTAL_FN as int) =~= best@);
            let take = first || lex_less(&cand, 0, &best, 0, TOTAL_FN);
            if take {
                best = cand;
                first = false;
            }
            i += 1;
        }
        best
    }
}

/// The category of the same piece type seen from the other player.
pub open spec fn other_cat(c: int) -> int {
    (c + 8) % 16
}

/// The permutation of adjacency categories that swaps the players, built
/// over the first `n` cells `(i, j)` of the 16 by 16 grid in row order
/// (cells with `j < i` are skipped).
pub open spec fn perm_upto(n: int) -> Seq<int>
    decreases n,
{
    if n <= 0 {
        Seq::new(ADJ_SIZE as nat, |x: int| 0int)
    } else {
        let p = perm_upto(n - 1);
        let i = (n - 1) / 16;
        let j = (n - 1) % 16;
        if j >= i {
            match (adj_idx_spec(i, j), adj_idx_spec(other_cat(i), other_cat(j))) {
                (Some(a), Some(b)) => p.update(a, b),
                _ => p,
            }
        } else {
            p
        }
    }
}

/// The permutation of adjacency categories that swaps the players.
pub open spec fn adj_perm_spec() -> Seq<int> {
    perm_upto(256)
}

/// Cells left of the diagonal change nothing.
pub proof fn lemma_perm_skip(i: int, j: int)
    requires
        0 <= i < 16,
        0 <= j <= i,
    ensures
        perm_upto(16 * i + j) == perm_upto(16 * i),
    decreases j,
{
    if j > 0 {
        lemma_perm_skip(i, j - 1);
        assert((16 * i + j - 1) / 16 == i && (16 * i + j - 1) % 16 == j - 1) by (nonlinear_arith)
            requires 0 < j <= i < 16;
    }
}

/// Every category pair has an index below `ADJ_SIZE`.
pub proof fn lemma_adj_idx_range(c1: int, c2: int)
    requires
        0 <= c1 < 16,
        0 <= c2 < 16,
    ensures
        adj_idx_spec(c1, c2) matches Some(x) ==> 0 <= x < ADJ_SIZE,
{
    reveal(adj_idx_spec);
    let a = if c1 <= c2 { c1 } else { c2 };
    reveal_with_fuel(row_start, 17);
    lemma_row_start_bound(a);
    assert(row_start(16) == 128);
    lemma_row_start_mono(a + 1, 16);
}

/// Rows start in increasing order.
pub proof fn lemma_row_start_mono(i: int, j: int)
    requires
        0 <= i <= j <= 16,
    ensures
        row_start(i) <= row_start(j),
    decreases j - i,
{
    if i < j {
        lemma_row_start_mono(i, j - 1);
    }
}

/// Every entry of the permutation, built over at most the whole grid, is
/// a category index.
pub proof fn lemma_perm_upto_range(n: int)
    requires
        0 <= n <= 256,
    ensures
        perm_upto(n).len() == ADJ_SIZE,
        forall|x: int| 0 <= x < ADJ_SIZE ==> 0 <= #[trigger] perm_upto(n)[x] < ADJ_SIZE,
    decreases n,
{
    if n > 0 {
        lemma_perm_upto_range(n - 1);
        let i = (n - 1) / 16;
        let j = (n - 1) % 16;
        lemma_adj_idx_range(i, j);
        lemma_adj_idx_range(other_cat(i), other_cat(j));
    }
}

/// Every entry of the permutation is a category index.
pub proof fn lemma_perm_range(x: int)
    requires
        0 <= x < ADJ_SIZE,
    ensures
        0 <= adj_perm_spec()[x] < ADJ_SIZE,
{
    lemma_perm_upto_range(256);
}

impl Board {
    /// The permutation of adjacency categories that swaps the players (see
    /// `adj_perm_spec`).
    pub fn compute_adj_perm() -> (r: [usize; 128])
        ensures
            forall|x: int| 0 <= x < ADJ_SIZE ==> r@[x] == adj_perm_spec()[x],
    {
        let mut perm = [0usize; 128];
        let mut i: usize = 0;
        assert forall|x: int| 0 <= x < ADJ_SIZE implies perm@[x] == perm_upto(0)[x] by {}
        while i < 16
            invariant
                0 <= i <= 16,
                forall|x: int| 0 <= x < ADJ_SIZE ==> perm@[x] == perm_upto(16 * i)[x],
                perm_upto(16 * i).len() == ADJ_SIZE,
            decreases 16 - i,
        {
            proof {
                lemma_perm_skip(i as int, i as int);
            }
            let mut j = i;
            while j < 16
                invariant
                    0 <= i < 16,
                    i <= j <= 16,
                    forall|x: int| 0 <= x < ADJ_SIZE ==> perm@[x] == perm_upto(16 * i + j)[x],
                    perm_upto(16 * i + j).len() == ADJ_SIZE,
                decreases 16 - j,
            {
                let ghost n = 16 * i + j;
                assert(n / 16 == i && n % 16 == j) by (nonlinear_arith)
                    requires n == 16 * i + j, 0 <= j < 16;
                proof {
                    lemma_adj_idx_range(i as int, j as int);
                    lemma_adj_idx_range(other_cat(i as int), other_cat(j as int));
                }
                match Board::adj_idx(i, j) {
                    Some(idx1) => {
                        let inv_i = (i + 8) % 16;
                        let inv_j = (j + 8) % 16;
                        match Board::adj_idx(inv_i, inv_j) {
                            Some(idx2) => {
                                perm[idx1] = idx2;
                            },
                            None => {},
                        }
                    },
                    None => {},
                }
                j += 1;
            }
            i += 1;
        }
        perm
    }
}

/// The features seen from the other player, before canonical ordering:
/// the two players' piece blocks exchanged, each with its two queen offsets
/// and its two neighbour counts exchanged, and the adjacency histogram
/// permuted.
pub open spec fn swap_spec(f: Seq<i16>, perm: Seq<int>) -> Seq<i16> {
    Seq::new(
        TOTAL_FN as nat,
        |i: int|
            if i < PIECE_FEATURES_LEN {
                let half = (PIECES_PER_SIDE * PIECE_FN) as int;
                let src = if i < half {
                    i + half
                } else {
                    i - half
                };
                let fld = i % PIECE_FN as int;
                let base = src - fld;
                if fld < 3 {
                    f[base + fld + 3]
                } else if fld < 6 {
                    f[base + fld - 3]
                } else if fld == 6 {
                    f[base + 7]
                } else if fld == 7 {
                    f[base + 6]
                } else {
                    f[src]
                }
            } else {
                f[PIECE_FEATURES_LEN + perm[i - PIECE_FEATURES_LEN]]
            },
    )
}

/// Fills slot `slot` of both players in `f_new` (see `swap_spec`).
#[verifier::rlimit(80)]
fn swap_slot(f: &[i16; 436], f_new: &mut [i16; 436], slot: usize)
    requires
        slot < PIECES_PER_SIDE,
    ensures
        forall|i: int| 0 <= i < TOTAL_FN ==> #[trigger] final(f_new)@[i] == if (slot * PIECE_FN
            <= i < slot * PIECE_FN + PIECE_FN || slot * PIECE_FN + 154 <= i < slot * PIECE_FN + 154
            + PIECE_FN) {
            swap_spec(f@, adj_perm_spec())[i]
        } else {
            old(f_new)@[i]
        },
{
    let w = slot * PIECE_FN;
    let b = 154 + w;
    f_new[w] = f[b + 3];
    f_new[w + 1] = f[b + 4];
    f_new[w + 2] = f[b + 5];
    f_new[w + 3] = f[b];
    f_new[w + 4] = f[b + 1];
    f_new[w + 5] = f[b + 2];
    f_new[w + 6] = f[b + 7];
    f_new[w + 7] = f[b + 6];
    f_new[w + 8] = f[b + 8];
    f_new[w + 9] = f[b + 9];
    f_new[w + 10] = f[b + 10];
    f_new[b] = f[w + 3];
    f_new[b + 1] = f[w + 4];
    f_new[b + 2] = f[w + 5];
    f_new[b + 3] = f[w];
    f_new[b + 4] = f[w + 1];
    f_new[b + 5] = f[w + 2];
    f_new[b + 6] = f[w + 7];
    f_new[b + 7] = f[w + 6];
    f_new[b + 8] = f[w + 8];
    f_new[b + 9] = f[w + 9];
    f_new[b + 10] = f[w + 10];
    assert forall|i: int| w <= i < w + 11 implies f_new@[i] == #[trigger] swap_spec(f@, adj_perm_spec())[i] by {
        assert(i % 11 == i - w) by (nonlinear_arith)
            requires w == slot * 11, w <= i < w + 11;
    }
    assert forall|i: int| b <= i < b + 11 implies f_new@[i] == #[trigger] swap_spec(f@, adj_perm_spec())[i] by {
        assert(i % 11 == i - b) by (nonlinear_arith)
            requires w == slot * 11, b == 154 + w, b <= i < b + 11;
    }
}

impl Board {
    /// The features seen from the other player, in canonical form.
    pub fn swap_features_color(f: &[i16; 436]) -> (r: [i16; 436])
        requires
            coords_negatable(f@),
        ensures
            r@ == canonical(swap_spec(f@, adj_perm_spec())),
    {
        let mut f_new = [0i16; 436];
        let mut slot: usize = 0;
        while slot < PIECES_PER_SIDE
            invariant
                0 <= slot <= PIECES_PER_SIDE,
                forall|i: int| 0 <= i < slot * PIECE_FN ==> #[trigger] f_new@[i] == swap_spec(f@, adj_perm_spec())[i],
                forall|i: int| 154 <= i < 154 + slot * PIECE_FN ==> #[trigger] f_new@[i] == swap_spec(f@, adj_perm_spec())[i],
            decreases PIECES_PER_SIDE - slot,
        {
            swap_slot(f, &mut f_new, slot);
            slot += 1;
        }
        assert forall|i: int| 0 <= i < PIECE_FEATURES_LEN implies f_new@[i] == swap_spec(f@, adj_perm_spec())[i] by {}
        let perm = Board::compute_adj_perm();
        let mut x: usize = 0;
        while x < ADJ_SIZE
            invariant
                0 <= x <= ADJ_SIZE,
                forall|y: int| 0 <= y < ADJ_SIZE ==> perm@[y] == adj_perm_spec()[y],
                forall|i: int| 0 <= i < PIECE_FEATURES_LEN ==> f_new@[i] == swap_spec(f@, adj_perm_spec())[i],
                forall|i: int| PIECE_FEATURES_LEN <= i < PIECE_FEATURES_LEN + x ==> f_new@[i] == swap_spec(f@, adj_perm_spec())[i],
            decreases ADJ_SIZE - x,
        {
            proof {
                lemma_perm_range(x as int);
            }
            let src = perm[x];
            f_new[PIECE_FEATURES_LEN + x] = f[PIECE_FEATURES_LEN + src];
            x += 1;
        }
        assert(f_new@ =~= swap_spec(f@, adj_perm_spec()));
        assert(coords_negatable(f_new@)) by {
            assert forall|i: int| 0 <= i < PIECE_FEATURES_LEN && i % (PIECE_FN as int) < 6 implies negatable(#[trigger] f_new@[i] as int) by {
                let src = if i < 154 { i + 154 } else { i - 154 };
                let fld = i % 11;
                assert(src % 11 == fld) by (nonlinear_arith)
                    requires src == i + 154 || src == i - 154, fld == i % 11, 0 <= i, 0 <= src;
                let j = if fld < 3 { src - fld + fld + 3 } else { src - fld + fld - 3 };
                assert(j % 11 < 6 && 0 <= j < 308) by (nonlinear_arith)
                    requires src % 11 == fld, fld < 6, 0 <= src < 308, j == (if fld < 3 { src + 3 } else { src - 3 });
            }
        }
        Board::canonicalize_features(&f_new)
    }
}

/// The number of pairs in row `a`.
pub open spec fn row_len(a: int) -> int {
    16 - a - (if adj_excluded(a) {
        1int
    } else {
        0int
    })
}

/// A pair `a <= b` of categories below 16 that has an index.
pub open spec fn valid_pair(a: int, b: int) -> bool {
    0 <= a <= b < 16 && !(a == b && adj_excluded(a))
}

/// The rows hold 128 pairs in all.
pub proof fn lemma_row_start_total()
    ensures
        row_start(0) == 0,
        row_start(16) == ADJ_SIZE,
{
    reveal_with_fuel(row_start, 17);
}

/// The index of a valid pair lies within its row.
pub proof fn lemma_pair_in_row(a: int, b: int)
    requires
        valid_pair(a, b),
    ensures
        adj_idx_spec(a, b) == Some(row_start(a) + (b - a) - (if adj_excluded(a) && b > a {
            1int
        } else {
            0int
        })),
        adj_idx_spec(a, b) == adj_idx_spec(b, a),
        row_start(a) <= adj_idx_spec(a, b)->0 < row_start(a + 1),
        row_start(a + 1) == row_start(a) + row_len(a),
{
    reveal(adj_idx_spec);
}

/// Different valid pairs have different indexes.
pub proof fn lemma_adj_idx_injective(a1: int, b1: int, a2: int, b2: int)
    requires
        valid_pair(a1, b1),
        valid_pair(a2, b2),
        adj_idx_spec(a1, b1) == adj_idx_spec(a2, b2),
    ensures
        a1 == a2 && b1 == b2,
{
    lemma_pair_in_row(a1, b1);
    lemma_pair_in_row(a2, b2);
    if a1 < a2 {
        lemma_row_start_mono(a1 + 1, a2);
    } else if a2 < a1 {
        lemma_row_start_mono(a2 + 1, a1);
    }
}

/// The row of index `x`, searching from row `a` on.
pub proof fn lemma_find_row(x: int, a: int) -> (r: int)
    requires
        0 <= a < 16,
        row_start(a) <= x < ADJ_SIZE,
    ensures
        a <= r < 16,
        row_start(r) <= x < row_start(r + 1),
    decreases 16 - a,
{
    lemma_row_start_total();
    if x < row_start(a + 1) {
        a
    } else {
        if a + 1 == 16 {
            assert(false);
        }
        lemma_find_row(x, a + 1)
    }
}

/// Every index below `ADJ_SIZE` is the index of a valid pair.
pub proof fn lemma_adj_idx_surjective(x: int) -> (p: (int, int))
    requires
        0 <= x < ADJ_SIZE,
    ensures
        valid_pair(p.0, p.1),
        adj_idx_spec(p.0, p.1) == Some(x),
{
    lemma_row_start_total();
    let a = lemma_find_row(x, 0);
    assert(row_start(a + 1) == row_start(a) + row_len(a));
    let off = x - row_start(a);
    let b = a + off + (if adj_excluded(a) {
        1int
    } else {
        0int
    });
    lemma_pair_in_row(a, b);
    (a, b)
}

/// Each pair of adjacency categories has its own index below `ADJ_SIZE`,
/// the same in either order; only a single-piece category paired with
/// itself has none; every index belongs to a pair.
pub proof fn lemma_adj_idx_bijective(i1: int, j1: int, i2: int, j2: int, x: int)
    requires
        0 <= i1 <= j1 < 16,
        0 <= i2 <= j2 < 16,
    ensures
        adj_idx_spec(i1, j1) == adj_idx_spec(j1, i1),
        adj_idx_spec(i1, j1) is None <==> (i1 == j1 && adj_excluded(i1)),
        adj_idx_spec(i1, j1) matches Some(a) ==> 0 <= a < ADJ_SIZE,
        (adj_idx_spec(i1, j1) is Some && adj_idx_spec(i1, j1) == adj_idx_spec(i2, j2)) ==> i1 == i2
            && j1 == j2,
        0 <= x < ADJ_SIZE ==> exists|i: int, j: int|
            0 <= i <= j < 16 && #[trigger] adj_idx_spec(i, j) == Some(x),
{
    reveal(adj_idx_spec);
    lemma_adj_idx_range(i1, j1);
    if adj_idx_spec(i1, j1) is Some && adj_idx_spec(i1, j1) == adj_idx_spec(i2, j2) {
        lemma_adj_idx_injective(i1, j1, i2, j2);
    }
    if 0 <= x < ADJ_SIZE {
        let p = lemma_adj_idx_surjective(x);
        assert(adj_idx_spec(p.0, p.1) == Some(x));
    }
}

/// The pair of categories seen from the other player, in order.
pub open spec fn other_pair(i: int, j: int) -> (int, int) {
    let oi = other_cat(i);
    let oj = other_cat(j);
    if oi <= oj {
        (oi, oj)
    } else {
        (oj, oi)
    }
}

/// Swapping the players keeps a pair valid and swapping twice gives it
/// back.
pub proof fn lemma_other_pair(i: int, j: int)
    requires
        valid_pair(i, j),
    ensures
        valid_pair(other_pair(i, j).0, other_pair(i, j).1),
        other_pair(other_pair(i, j).0, other_pair(i, j).1) == (i, j),
        adj_idx_spec(other_cat(i), other_cat(j)) == adj_idx_spec(other_pair(i, j).0, other_pair(i, j).1),
{
    reveal(adj_idx_spec);
    lemma_other_cat(i);
    lemma_other_cat(j);
    lemma_other_cat(other_cat(i));
    lemma_other_cat(other_cat(j));
}

/// Seen from the other player, a category keeps its piece type.
pub proof fn lemma_other_cat(c: int)
    requires
        0 <= c < 16,
    ensures
        other_cat(c) == if c < 8 {
            c + 8
        } else {
            c - 8
        },
        0 <= other_cat(c) < 16,
        adj_excluded(other_cat(c)) == adj_excluded(c),
{
    assert(other_cat(c) == if c < 8 { c + 8 } else { c - 8 });
    assert(other_cat(c) % 8 == c % 8);
}

/// One more cell of the grid either sets the entry of its pair, when the
/// cell holds a valid pair, or changes nothing.
proof fn lemma_perm_step(n: int) -> (c: (int, int))
    requires
        0 < n <= 256,
    ensures
        n - 1 == 16 * c.0 + c.1,
        0 <= c.0 < 16,
        0 <= c.1 < 16,
        perm_upto(n - 1).len() == ADJ_SIZE,
        valid_pair(c.0, c.1) ==> perm_upto(n) == perm_upto(n - 1).update(
            adj_idx_spec(c.0, c.1)->0,
            adj_idx_spec(other_cat(c.0), other_cat(c.1))->0,
        ),
        !valid_pair(c.0, c.1) ==> perm_upto(n) == perm_upto(n - 1),
{
    let i0 = (n - 1) / 16;
    let j0 = (n - 1) % 16;
    assert(n - 1 == 16 * i0 + j0 && 0 <= j0 < 16 && 0 <= i0 < 16) by (nonlinear_arith)
        requires
            i0 == (n - 1) / 16,
            j0 == (n - 1) % 16,
            0 < n <= 256,
    ;
    lemma_perm_upto_range(n - 1);
    if valid_pair(i0, j0) {
        lemma_pair_in_row(i0, j0);
        lemma_other_pair(i0, j0);
        lemma_pair_in_row(other_pair(i0, j0).0, other_pair(i0, j0).1);
    } else if j0 >= i0 {
        reveal(adj_idx_spec);
    }
    (i0, j0)
}

/// The entry of one valid pair, once its cell has been passed.
proof fn lemma_perm_upto_pair(n: int, i: int, j: int)
    requires
        0 <= n <= 256,
        valid_pair(i, j),
        16 * i + j < n,
    ensures
        perm_upto(n)[adj_idx_spec(i, j)->0] == adj_idx_spec(other_cat(i), other_cat(j))->0,
    decreases n,
{
    let c = lemma_perm_step(n);
    lemma_pair_in_row(i, j);
    lemma_adj_idx_range(i, j);
    if 16 * i + j == n - 1 {
        assert(i == c.0 && j == c.1) by (nonlinear_arith)
            requires
                16 * i + j == 16 * c.0 + c.1,
                0 <= j < 16,
                0 <= c.1 < 16,
        ;
    } else {
        lemma_perm_upto_pair(n - 1, i, j);
        if valid_pair(c.0, c.1) {
            if adj_idx_spec(i, j) == adj_idx_spec(c.0, c.1) {
                lemma_adj_idx_injective(i, j, c.0, c.1);
            }
            lemma_pair_in_row(c.0, c.1);
            lemma_adj_idx_range(c.0, c.1);
        }
    }
}

/// Over the first `n` cells, the permutation sends the index of each valid
/// pair met so far to the index of the pair seen from the other player.
pub proof fn lemma_perm_upto_pairs(n: int)
    requires
        0 <= n <= 256,
    ensures
        forall|i: int, j: int|
            valid_pair(i, j) && 16 * i + j < n ==> perm_upto(n)[#[trigger] adj_idx_spec(i, j)->0]
                == adj_idx_spec(other_cat(i), other_cat(j))->0,
{
    assert forall|i: int, j: int| valid_pair(i, j) && 16 * i + j < n implies perm_upto(
        n,
    )[#[trigger] adj_idx_spec(i, j)->0] == adj_idx_spec(other_cat(i), other_cat(j))->0 by {
        lemma_perm_upto_pair(n, i, j);
    }
}

/// The permutation that swaps the players is its own inverse, and starts
/// with the indexes the histogram layout gives.
#[verifier::rlimit(60)]
pub proof fn lemma_adj_perm_involution()
    ensures
        adj_perm_spec().len() == ADJ_SIZE,
        forall|x: int| 0 <= x < ADJ_SIZE ==> 0 <= #[trigger] adj_perm_spec()[x] < ADJ_SIZE,
        forall|x: int| 0 <= x < ADJ_SIZE ==> adj_perm_spec()[#[trigger] adj_perm_spec()[x]] == x,
        adj_perm_spec().subrange(0, 10) == seq![96int, 97, 98, 99, 100, 101, 102, 7, 22, 36],
{
    lemma_perm_upto_range(256);
    lemma_perm_upto_pairs(256);
    assert forall|x: int| 0 <= x < ADJ_SIZE implies adj_perm_spec()[#[trigger] adj_perm_spec()[x]] == x by {
        let p = lemma_adj_idx_surjective(x);
        lemma_pair_in_row(p.0, p.1);
        lemma_other_pair(p.0, p.1);
        let q = other_pair(p.0, p.1);
        lemma_pair_in_row(q.0, q.1);
        lemma_other_pair(q.0, q.1);
        assert(adj_perm_spec()[x] == adj_idx_spec(q.0, q.1)->0);
    }
    reveal_with_fuel(row_start, 17);
    assert(row_start(1) == 15 && row_start(2) == 30 && row_start(8) == 96);
    assert forall|x: int| 0 <= x < 10 implies adj_perm_spec()[x] == seq![96int, 97, 98, 99, 100, 101, 102, 7, 22, 36][x] by {
        lemma_pair_in_row(0, x + 1);
        lemma_other_pair(0, x + 1);
        lemma_other_cat(0);
        lemma_other_cat(x + 1);
        let q = other_pair(0, x + 1);
        lemma_pair_in_row(q.0, q.1);
        assert(adj_idx_spec(0, x + 1) == Some(x));
        assert(adj_perm_spec()[x] == adj_idx_spec(q.0, q.1)->0);
    }
    assert(adj_perm_spec().subrange(0, 10) =~= seq![96int, 97, 98, 99, 100, 101, 102, 7, 22, 36]);
}

} // verus!
