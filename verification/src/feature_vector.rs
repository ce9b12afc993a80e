//! The feature vector of a position: for each piece, its cube offsets to
//! both queens, its white and black neighbours, whether it is pinned or
//! buried and how many moves it has; then how often each pair of piece
//! categories stands side by side. The vector is put in canonical form.

use vstd::prelude::*;
use crate::abstractions::TileSet;
use crate::action::{Action, ActionKind};
use crate::board::{Board, numbered, under_at, UnderPiece, color_of_turn};
use crate::cut::cut_spec;
use crate::features::{
    cube_delta_spec, d6, slot_of, adj_idx_spec, cand_scan, tri_less, coords_negatable, negatable,
    canonical, sort_groups_spec, PIECES_PER_SIDE, PIECE_FN, PIECE_FEATURES_LEN, TOTAL_FN,
};
use crate::movegen::{moves_spec, few_pieces};
use crate::piece::{Color, Piece, color_index};
use crate::piece_type::pct_index;
use crate::tile::{adjacent, step, dir_at, Tile, GRID_SIZE};
use crate::tally::{hits, lemma_hits_step};

verus! {

/// The tiles with a piece, the first player's list then the second's.
pub open spec fn occupied_list(b: Board) -> Seq<Tile> {
    b.occupied_tiles[0].occupants@ + b.occupied_tiles[1].occupants@
}

/// The symmetry applied to every offset when a single one makes the
/// offset of the white queen from the black queen smallest; none
/// otherwise, or while a queen is not placed.
pub open spec fn inline_transform(b: Board) -> Option<int> {
    match (b.queens[0], b.queens[1]) {
        (Some(wq), Some(bq)) => {
            let c = cand_scan(cube_delta_spec(bq as int, wq as int), 12).1;
            if c.len() == 1 {
                Some(c[0])
            } else {
                None
            }
        },
        _ => None,
    }
}

/// `v` under the symmetry `t`, if any.
pub open spec fn apply_t(t: Option<int>, v: (int, int, int)) -> (int, int, int) {
    match t {
        Some(k) => d6(k, v),
        None => v,
    }
}

/// The offset of `tile` from the queen of color index `c`, zero while that
/// queen is not placed.
pub open spec fn queen_delta(b: Board, c: int, tile: int) -> (int, int, int) {
    match b.queens[c] {
        Some(q) => cube_delta_spec(q as int, tile),
        None => (0, 0, 0),
    }
}

/// Number of the first `k` neighbours of `tile` whose top piece has color
/// `c`.
pub open spec fn color_neighbours(b: Board, tile: int, c: Color, k: int) -> int
    decreases k,
{
    if k <= 0 {
        0
    } else {
        let p = b.world@[step(tile, dir_at(k - 1))];
        color_neighbours(b, tile, c, k - 1) + if p.spec_is_some() && p.spec_color() == c {
            1int
        } else {
            0int
        }
    }
}

/// `color_neighbours` counts the neighbour indices below `k` whose tile
/// holds a piece of color `c`.
proof fn lemma_color_neighbours_hits(b: Board, tile: int, c: Color, k: int)
    requires
        0 <= k,
    ensures
        color_neighbours(b, tile, c, k) == hits(
            |d: int| b.world@[step(tile, dir_at(d))].spec_is_some() && b.world@[step(tile, dir_at(d))].spec_color() == c,
            k,
        ).len(),
    decreases k,
{
    let p = |d: int| b.world@[step(tile, dir_at(d))].spec_is_some() && b.world@[step(tile, dir_at(d))].spec_color() == c;
    lemma_hits_step(p, if k == 0 { 0 } else { k - 1 });
    if k == 0 {
        assert(hits(p, 0) =~= Set::<int>::empty());
    } else {
        lemma_color_neighbours_hits(b, tile, c, k - 1);
    }
}

/// The features of a piece on `tile`, with its pinned, buried and moves
/// fields.
pub open spec fn piece_block(b: Board, tile: int, it: Option<int>, fixed: i16, buried: i16, moves: i16) -> Seq<i16> {
    let dw = apply_t(it, queen_delta(b, 0, tile));
    let db = apply_t(it, queen_delta(b, 1, tile));
    seq![
        dw.0 as i16,
        dw.1 as i16,
        dw.2 as i16,
        db.0 as i16,
        db.1 as i16,
        db.2 as i16,
        color_neighbours(b, tile, Color::White, 6) as i16,
        color_neighbours(b, tile, Color::Black, 6) as i16,
        fixed,
        buried,
        moves,
    ]
}

/// In the block of a piece on `tile`, the white-neighbour feature is the
/// number of the six neighbouring tiles that hold a white piece, the
/// black-neighbour feature the number that hold a black piece, and the two
/// add up to the number of occupied neighbouring tiles (so empty tiles count
/// for neither color).
pub proof fn law_neighbour_colors_count_occupied_tiles(
    b: Board,
    tile: int,
    it: Option<int>,
    fixed: i16,
    buried: i16,
    moves: i16,
)
    ensures
        piece_block(b, tile, it, fixed, buried, moves)[6] == Set::new(
            |d: int|
                0 <= d < 6 && b.world@[step(tile, dir_at(d))].spec_is_some() && b.world@[step(tile, dir_at(d))].spec_color()
                    == Color::White,
        ).len(),
        piece_block(b, tile, it, fixed, buried, moves)[7] == Set::new(
            |d: int|
                0 <= d < 6 && b.world@[step(tile, dir_at(d))].spec_is_some() && b.world@[step(tile, dir_at(d))].spec_color()
                    == Color::Black,
        ).len(),
        piece_block(b, tile, it, fixed, buried, moves)[6] + piece_block(b, tile, it, fixed, buried, moves)[7]
            == Set::new(|d: int| 0 <= d < 6 && b.world@[step(tile, dir_at(d))].spec_is_some()).len(),
        0 <= piece_block(b, tile, it, fixed, buried, moves)[6] + piece_block(b, tile, it, fixed, buried, moves)[7] <= 6,
{
    let pw = |d: int| b.world@[step(tile, dir_at(d))].spec_is_some() && b.world@[step(tile, dir_at(d))].spec_color() == Color::White;
    let pb = |d: int| b.world@[step(tile, dir_at(d))].spec_is_some() && b.world@[step(tile, dir_at(d))].spec_color() == Color::Black;
    let po = |d: int| b.world@[step(tile, dir_at(d))].spec_is_some();
    lemma_color_neighbours_hits(b, tile, Color::White, 6);
    lemma_color_neighbours_hits(b, tile, Color::Black, 6);
    lemma_hits_step(pw, 6);
    lemma_hits_step(pb, 6);
    lemma_hits_step(po, 6);
    assert(hits(pw, 6).disjoint(hits(pb, 6)));
    assert(hits(po, 6) =~= hits(pw, 6).union(hits(pb, 6))) by {
        assert forall|d: int| hits(po, 6).contains(d) implies #[trigger] hits(pw, 6).union(hits(pb, 6)).contains(d) by {
            let c = b.world@[step(tile, dir_at(d))].spec_color();
            assert(c == Color::White || c == Color::Black);
        }
    }
    vstd::set_lib::lemma_set_disjoint_lens(hits(pw, 6), hits(pb, 6));
    assert(hits(pw, 6) =~= Set::new(
        |d: int|
            0 <= d < 6 && b.world@[step(tile, dir_at(d))].spec_is_some() && b.world@[step(tile, dir_at(d))].spec_color()
                == Color::White,
    ));
    assert(hits(pb, 6) =~= Set::new(
        |d: int|
            0 <= d < 6 && b.world@[step(tile, dir_at(d))].spec_is_some() && b.world@[step(tile, dir_at(d))].spec_color()
                == Color::Black,
    ));
    assert(hits(po, 6) =~= Set::new(|d: int| 0 <= d < 6 && b.world@[step(tile, dir_at(d))].spec_is_some()));
}

/// The first feature of the block of piece `p`.
pub open spec fn slot_base(p: Piece) -> int {
    (color_index(p.spec_color()) * PIECES_PER_SIDE + slot_of(p.spec_ptype(), p.spec_num() as int))
        * PIECE_FN
}

/// `out` with the block from `base` replaced by `vals`.
pub open spec fn put_block(out: Seq<i16>, base: int, vals: Seq<i16>) -> Seq<i16> {
    Seq::new(out.len(), |i: int| if base <= i < base + 11 { vals[i - base] } else { out[i] })
}

/// The features of the top piece of `tile`: pinned if alone on its tile
/// and a cut vertex, not buried, with its moves from `wm` or `bm` by
/// color.
pub open spec fn top_block(b: Board, tile: int, it: Option<int>, wm: Seq<u16>, bm: Seq<u16>) -> Seq<i16> {
    let top = b.world@[tile];
    let fixed: i16 = if b@.stacks[tile].len() == 1 && cut_spec(b).contains(tile as Tile) {
        1
    } else {
        0
    };
    let moves = if top.spec_color() == Color::White {
        wm[tile] as i16
    } else {
        bm[tile] as i16
    };
    piece_block(b, tile, it, fixed, 0, moves)
}

/// The blocks of the first `n` buried pieces `us` of `tile` written into
/// `out`: pinned, buried, no moves.
pub open spec fn write_unders(out: Seq<i16>, b: Board, tile: int, it: Option<int>, us: Seq<Piece>, n: int) -> Seq<i16>
    decreases n,
{
    if n <= 0 {
        out
    } else {
        put_block(write_unders(out, b, tile, it, us, n - 1), slot_base(us[n - 1]), piece_block(b, tile, it, 1, 1, 0))
    }
}

/// `out` with the blocks of the pieces on `tile` written: the top piece,
/// then the buried ones from the bottom.
#[verifier::opaque]
pub open spec fn write_tile(out: Seq<i16>, b: Board, tile: int, it: Option<int>, wm: Seq<u16>, bm: Seq<u16>) -> Seq<i16> {
    let o1 = put_block(out, slot_base(b.world@[tile]), top_block(b, tile, it, wm, bm));
    if b@.stacks[tile].len() > 1 {
        let us = under_at(b.underworld@, tile);
        write_unders(o1, b, tile, it, us, us.len() as int)
    } else {
        o1
    }
}

/// `out` with the pieces of the first `k` tiles of `tiles` written.
pub open spec fn write_tiles(out: Seq<i16>, b: Board, tiles: Seq<Tile>, k: int, it: Option<int>, wm: Seq<u16>, bm: Seq<u16>) -> Seq<i16>
    decreases k,
{
    if k <= 0 {
        out
    } else {
        write_tile(write_tiles(out, b, tiles, k - 1, it, wm, bm), b, tiles[k - 1] as int, it, wm, bm)
    }
}

/// The adjacency category of a piece: its color index times 8 plus its
/// type index.
pub open spec fn category(p: Piece) -> int {
    color_index(p.spec_color()) * 8 + pct_index(p.spec_ptype())
}

/// `out` after counting the pairs of tile `tiles[k]` with its first `d`
/// neighbours that hold a piece and come later in `tiles`.
pub open spec fn hist_dirs(out: Seq<i16>, b: Board, tiles: Seq<Tile>, k: int, d: int) -> Seq<i16>
    decreases d,
{
    if d <= 0 {
        out
    } else {
        let prev = hist_dirs(out, b, tiles, k, d - 1);
        let tile = tiles[k] as int;
        let adj = step(tile, dir_at(d - 1));
        if b.world@[adj].spec_is_some() && !tiles.subrange(0, k + 1).contains(adj as Tile) {
            match adj_idx_spec(category(b.world@[tile]), category(b.world@[adj])) {
                Some(x) => prev.update(PIECE_FEATURES_LEN + x, (prev[PIECE_FEATURES_LEN + x] + 1) as i16),
                None => prev,
            }
        } else {
            prev
        }
    }
}

/// `out` after counting the neighbouring pairs of the first `k` tiles.
pub open spec fn hist_tiles(out: Seq<i16>, b: Board, tiles: Seq<Tile>, k: int) -> Seq<i16>
    decreases k,
{
    if k <= 0 {
        out
    } else {
        hist_dirs(hist_tiles(out, b, tiles, k - 1), b, tiles, k - 1, 6)
    }
}

/// The feature vector before it is put in order: all pieces, then the
/// histogram of neighbouring categories.
pub open spec fn raw_features(b: Board, wm: Seq<u16>, bm: Seq<u16>) -> Seq<i16> {
    let tiles = occupied_list(b);
    let zeros = Seq::new(TOTAL_FN as nat, |i: int| 0i16);
    hist_tiles(
        write_tiles(zeros, b, tiles, tiles.len() as int, inline_transform(b), wm, bm),
        b,
        tiles,
        tiles.len() as int,
    )
}

/// The feature vector: with a single best symmetry, the raw features with
/// same-type pieces in order; otherwise their canonical form.
pub open spec fn features_spec(b: Board, wm: Seq<u16>, bm: Seq<u16>) -> Seq<i16> {
    if inline_transform(b) is Some {
        sort_groups_spec(raw_features(b, wm, bm))
    } else {
        canonical(raw_features(b, wm, bm))
    }
}

/// Offsets between tiles of the grid are small.
proof fn lemma_cube_delta_small(a: int, b: int)
    requires
        0 <= a < GRID_SIZE,
        0 <= b < GRID_SIZE,
    ensures
        -32 <= cube_delta_spec(a, b).0 <= 32,
        -32 <= cube_delta_spec(a, b).1 <= 32,
        -32 <= cube_delta_spec(a, b).2 <= 32,
{
    assert(0 <= a % 32 < 32 && 0 <= a / 32 < 32 && 0 <= b % 32 < 32 && 0 <= b / 32 < 32) by (nonlinear_arith)
        requires
            0 <= a < 1024,
            0 <= b < 1024,
    ;
}

/// A small offset stays small under every symmetry.
proof fn lemma_d6_small(k: int, v: (int, int, int))
    requires
        -32 <= v.0 <= 32,
        -32 <= v.1 <= 32,
        -32 <= v.2 <= 32,
    ensures
        -32 <= d6(k, v).0 <= 32,
        -32 <= d6(k, v).1 <= 32,
        -32 <= d6(k, v).2 <= 32,
{
}

/// Lexicographic order on triples of 16-bit numbers.
fn tri_lt(a: (i16, i16, i16), b: (i16, i16, i16)) -> (r: bool)
    ensures
        r == tri_less((a.0 as int, a.1 as int, a.2 as int), (b.0 as int, b.1 as int, b.2 as int)),
{
    a.0 < b.0 || (a.0 == b.0 && (a.1 < b.1 || (a.1 == b.1 && a.2 < b.2)))
}

impl Board {
    /// The symmetry applied inline (see `inline_transform`).
    fn inline_symmetry(&self) -> (r: Option<usize>)
        requires
            self.wf(),
        ensures
            r matches Some(k) ==> k < 12 && inline_transform(*self) == Some(k as int),
            r is None ==> inline_transform(*self) is None,
    {
        match (self.queens[0], self.queens[1]) {
            (Some(wq), Some(bq)) => {
                assert(self.queens[0int] matches Some(q) ==> q < GRID_SIZE);
                assert(self.queens[1int] matches Some(q) ==> q < GRID_SIZE);
                let vq = Board::cube_delta(bq, wq);
                let ghost v = (vq.0 as int, vq.1 as int, vq.2 as int);
                proof {
                    lemma_cube_delta_small(bq as int, wq as int);
                }
                let mut min_v: (i16, i16, i16) = (i16::MAX, i16::MAX, i16::MAX);
                let mut best_k: usize = 0;
                let mut n_cands: usize = 0;
                let mut k: usize = 0;
                while k < 12
                    invariant
                        0 <= k <= 12,
                        v == cube_delta_spec(bq as int, wq as int),
                        v == (vq.0 as int, vq.1 as int, vq.2 as int),
                        -32 <= v.0 <= 32,
                        -32 <= v.1 <= 32,
                        -32 <= v.2 <= 32,
                        (min_v.0 as int, min_v.1 as int, min_v.2 as int) == cand_scan(v, k as int).0,
                        n_cands == cand_scan(v, k as int).1.len(),
                        n_cands > 0 ==> best_k == cand_scan(v, k as int).1[0],
                        n_cands <= k,
                        k > 0 ==> n_cands > 0,
                        k == 0 ==> best_k == 0,
                        best_k < 12,
                    decreases 12 - k,
                {
                    proof {
                        lemma_d6_small(k as int, v);
                    }
                    let vk = crate::features::d6_transform(k, vq.0, vq.1, vq.2);
                    if tri_lt(vk, min_v) {
                        min_v = vk;
                        best_k = k;
                        n_cands = 1;
                    } else if vk.0 == min_v.0 && vk.1 == min_v.1 && vk.2 == min_v.2 {
                        n_cands += 1;
                    }
                    k += 1;
                }
                if n_cands == 1 {
                    Some(best_k)
                } else {
                    None
                }
            },
            _ => None,
        }
    }
}

/// The symmetry as a spec value.
pub open spec fn opt_int(it: Option<usize>) -> Option<int> {
    match it {
        Some(k) => Some(k as int),
        None => None,
    }
}

/// Every buried piece of a tile is one of the buried pieces of the board.
pub proof fn lemma_under_at_valid(uw: Seq<UnderPiece>, t: int)
    requires
        forall|i: int|
            0 <= i < uw.len() ==> (#[trigger] uw[i]).piece.spec_is_some() && uw[i].piece.wf()
                && numbered(uw[i].piece),
    ensures
        forall|j: int|
            0 <= j < under_at(uw, t).len() ==> (#[trigger] under_at(uw, t)[j]).spec_is_some()
                && under_at(uw, t)[j].wf() && numbered(under_at(uw, t)[j]),
    decreases uw.len(),
{
    if uw.len() > 0 {
        let d = uw.drop_last();
        assert forall|i: int| 0 <= i < d.len() implies (#[trigger] d[i]).piece.spec_is_some()
            && d[i].piece.wf() && numbered(d[i].piece) by {
            assert(d[i] == uw[i]);
        }
        lemma_under_at_valid(d, t);
        assert(uw[uw.len() - 1] == uw.last());
        let r = under_at(d, t);
        let u = under_at(uw, t);
        assert forall|j: int| 0 <= j < u.len() implies (#[trigger] u[j]).spec_is_some() && u[j].wf()
            && numbered(u[j]) by {
            if j < r.len() {
                assert(u[j] == r[j]);
            } else {
                assert(u[j] == uw.last().piece);
            }
        }
    }
}

/// The first feature of the block of a numbered piece lies within the
/// piece features.
proof fn lemma_slot_base_range(p: Piece)
    requires
        p.spec_is_some(),
        numbered(p),
    ensures
        0 <= slot_base(p),
        slot_base(p) + 11 <= PIECE_FEATURES_LEN,
        slot_base(p) % 11 == 0,
{
    crate::features::lemma_piece_slot_bijective(p.spec_ptype(), p.spec_num() as int, p.spec_ptype(), p.spec_num() as int, 0);
    let s = slot_of(p.spec_ptype(), p.spec_num() as int);
    let c = color_index(p.spec_color());
    assert(0 <= (c * 14 + s) * 11 && (c * 14 + s) * 11 + 11 <= 308 && ((c * 14 + s) * 11) % 11 == 0) by (nonlinear_arith)
        requires
            0 <= s < 14,
            0 <= c < 2,
    ;
}

/// Writes `vals` into the block from `base`.
fn write_block(out: &mut [i16; 436], base: usize, vals: &[i16; 11])
    requires
        base + 11 <= 436,
    ensures
        final(out)@ == put_block(old(out)@, base as int, vals@),
{
    let mut j: usize = 0;
    while j < 11
        invariant
            0 <= j <= 11,
            base + 11 <= 436,
            out@.len() == 436,
            forall|i: int|
                0 <= i < 436 ==> #[trigger] out@[i] == if base <= i < base + j {
                    vals@[i - base]
                } else {
                    old(out)@[i]
                },
        decreases 11 - j,
    {
        out[base + j] = vals[j];
        j += 1;
    }
    assert(out@ =~= put_block(old(out)@, base as int, vals@));
}

impl Board {
    /// The number of white and of black neighbours of `tile`.
    fn neighbour_colors(&self, tile: Tile) -> (r: (i16, i16))
        requires
            self.wf(),
        ensures
            r.0 as int == color_neighbours(*self, tile as int, Color::White, 6),
            r.1 as int == color_neighbours(*self, tile as int, Color::Black, 6),
    {
        let around = adjacent(tile);
        let mut nw: i16 = 0;
        let mut nb: i16 = 0;
        let mut i: usize = 0;
        while i < 6
            invariant
                0 <= i <= 6,
                self.wf(),
                forall|j: int| 0 <= j < 6 ==> around@[j] == #[trigger] step(tile as int, dir_at(j)),
                forall|j: int| 0 <= j < 6 ==> around@[j] < GRID_SIZE,
                nw as int == color_neighbours(*self, tile as int, Color::White, i as int),
                nb as int == color_neighbours(*self, tile as int, Color::Black, i as int),
                0 <= nw <= i,
                0 <= nb <= i,
            decreases 6 - i,
        {
            let pc = self.tile(around[i]);
            if pc.is_some() {
                if pc.color() == Color::White {
                    nw += 1;
                } else {
                    nb += 1;
                }
            }
            i += 1;
        }
        (nw, nb)
    }

    /// The features of a piece on `tile` (see `piece_block`).
    fn piece_block_exec(&self, tile: Tile, it: Option<usize>, fixed: i16, buried: i16, moves: i16) -> (r: [i16; 11])
        requires
            self.wf(),
            tile < GRID_SIZE,
            it matches Some(k) ==> k < 12,
        ensures
            r@ == piece_block(*self, tile as int, opt_int(it), fixed, buried, moves),
    {
        let (nw, nb) = self.neighbour_colors(tile);
        assert(self.queens[0int] matches Some(q) ==> q < GRID_SIZE);
        assert(self.queens[1int] matches Some(q) ==> q < GRID_SIZE);
        let mut dw: (i16, i16, i16) = match self.queens[0] {
            Some(q) => Board::cube_delta(q, tile),
            None => (0, 0, 0),
        };
        let mut db: (i16, i16, i16) = match self.queens[1] {
            Some(q) => Board::cube_delta(q, tile),
            None => (0, 0, 0),
        };
        proof {
            if let Some(q) = self.queens[0] {
                lemma_cube_delta_small(q as int, tile as int);
            }
            if let Some(q) = self.queens[1] {
                lemma_cube_delta_small(q as int, tile as int);
            }
        }
        if let Some(k) = it {
            dw = crate::features::d6_transform(k, dw.0, dw.1, dw.2);
            db = crate::features::d6_transform(k, db.0, db.1, db.2);
        }
        let r = [dw.0, dw.1, dw.2, db.0, db.1, db.2, nw, nb, fixed, buried, moves];
        assert(r@ =~= piece_block(*self, tile as int, opt_int(it), fixed, buried, moves));
        r
    }
}

impl Board {
    /// Writes the blocks of the pieces on `tile` (see `write_tile`).
    fn write_tile_exec(
        &self,
        out: &mut [i16; 436],
        tile: Tile,
        it: Option<usize>,
        wm: &[u16; 1024],
        bm: &[u16; 1024],
        immovable: &TileSet,
    )
        requires
            self.wf(),
            tile < GRID_SIZE,
            self.world@[tile as int].spec_is_some(),
            immovable.members() == cut_spec(*self),
            it matches Some(k) ==> k < 12,
        ensures
            final(out)@ == write_tile(old(out)@, *self, tile as int, opt_int(it), wm@, bm@),
    {
        reveal(write_tile);
        let h = self.height(tile);
        let top = self.tile(tile);
        assert(numbered(self.world@[tile as int]));
        let pinned = immovable.get(tile);
        assert(pinned == cut_spec(*self).contains(tile)) by {
            assert(immovable.members().contains(tile) == immovable.has(tile as int));
        }
        let fixed: i16 = if h == 1 && pinned {
            1
        } else {
            0
        };
        let moves: i16 = if top.color() == Color::White {
            wm[tile as usize] as i16
        } else {
            bm[tile as usize] as i16
        };
        let block = self.piece_block_exec(tile, it, fixed, 0, moves);
        proof {
            lemma_slot_base_range(top);
        }
        let top_base = (top.color().index() * PIECES_PER_SIDE + Board::piece_slot(top.ptype(), top.num()))
            * PIECE_FN;
        write_block(out, top_base, &block);
        assert(block@ == top_block(*self, tile as int, opt_int(it), wm@, bm@));
        if h > 1 {
            let unders = self.underworld_at(tile);
            let ub = self.piece_block_exec(tile, it, 1, 1, 0);
            proof {
                lemma_under_at_valid(self.underworld@, tile as int);
            }
            let ghost o1 = out@;
            let mut j: usize = 0;
            while j < unders.len()
                invariant
                    0 <= j <= unders@.len(),
                    unders@ == under_at(self.underworld@, tile as int),
                    ub@ == piece_block(*self, tile as int, opt_int(it), 1, 1, 0),
                    forall|k: int|
                        0 <= k < unders@.len() ==> (#[trigger] unders@[k]).spec_is_some() && unders@[k].wf()
                            && numbered(unders@[k]),
                    out@ == write_unders(o1, *self, tile as int, opt_int(it), unders@, j as int),
                decreases unders@.len() - j,
            {
                let u = unders[j];
                proof {
                    lemma_slot_base_range(u);
                }
                let base = (u.color().index() * PIECES_PER_SIDE + Board::piece_slot(u.ptype(), u.num()))
                    * PIECE_FN;
                write_block(out, base, &ub);
                j += 1;
            }
        }
    }
}

/// The histogram of `out` has every count between 0 and `n`.
pub open spec fn hist_within(out: Seq<i16>, n: int) -> bool {
    forall|x: int| PIECE_FEATURES_LEN <= x < TOTAL_FN ==> 0 <= #[trigger] out[x] <= n
}

/// `a` and `b` agree on the piece features.
pub open spec fn same_pieces(a: Seq<i16>, b: Seq<i16>) -> bool {
    forall|i: int| 0 <= i < PIECE_FEATURES_LEN ==> #[trigger] a[i] == b[i]
}

impl Board {
    /// Counts the pairs of `tile`, the `k`-th of `tiles`, with its later
    /// neighbours (see `hist_dirs`).
    fn hist_tile_exec(
        &self,
        out: &mut [i16; 436],
        tile: Tile,
        seen: &[bool; 1024],
        Ghost(tiles): Ghost<Seq<Tile>>,
        Ghost(k): Ghost<int>,
        Ghost(n): Ghost<int>,
    )
        requires
            self.wf(),
            0 <= k < tiles.len(),
            tiles[k] == tile,
            tile < GRID_SIZE,
            self.world@[tile as int].spec_is_some(),
            forall|t: int| 0 <= t < GRID_SIZE ==> #[trigger] seen@[t] == tiles.subrange(0, k + 1).contains(t as Tile),
            0 <= n <= 10000,
            hist_within(old(out)@, n),
        ensures
            final(out)@ == hist_dirs(old(out)@, *self, tiles, k, 6),
            hist_within(final(out)@, n + 6),
            same_pieces(final(out)@, old(out)@),
    {
        let around = adjacent(tile);
        let me = self.tile(tile);
        let c1 = me.color().index() * 8 + me.ptype().index();
        let ghost o0 = out@;
        let mut d: usize = 0;
        while d < 6
            invariant
                0 <= d <= 6,
                self.wf(),
                0 <= k < tiles.len(),
                tiles[k] == tile,
                tile < GRID_SIZE,
                me == self.world@[tile as int],
                c1 == crate::feature_vector::category(me),
                forall|j: int| 0 <= j < 6 ==> around@[j] == #[trigger] step(tile as int, dir_at(j)),
                forall|j: int| 0 <= j < 6 ==> around@[j] < GRID_SIZE,
                forall|t: int| 0 <= t < GRID_SIZE ==> #[trigger] seen@[t] == tiles.subrange(0, k + 1).contains(t as Tile),
                0 <= n <= 10000,
                hist_within(o0, n),
                out@ == hist_dirs(o0, *self, tiles, k, d as int),
                hist_within(out@, n + d),
                same_pieces(out@, o0),
                out@.len() == TOTAL_FN,
            decreases 6 - d,
        {
            let adj = around[d];
            let pc = self.tile(adj);
            if pc.is_some() && !seen[adj as usize] {
                let c2 = pc.color().index() * 8 + pc.ptype().index();
                match Board::adj_idx(c1, c2) {
                    Some(x) => {
                        proof {
                            crate::features::lemma_adj_idx_range(c1 as int, c2 as int);
                        }
                        out[PIECE_FEATURES_LEN + x] = out[PIECE_FEATURES_LEN + x] + 1;
                    },
                    None => {},
                }
            }
            d += 1;
        }
    }
}

/// The coordinates of the piece features are within -32..=32.
pub open spec fn small_coords(out: Seq<i16>) -> bool {
    forall|i: int| 0 <= i < PIECE_FEATURES_LEN && i % 11 < 6 ==> -32 <= #[trigger] out[i] <= 32
}

/// An index of the block from `base`, a multiple of 11.
proof fn lemma_in_block(base: int, i: int)
    requires
        base % 11 == 0,
        0 <= base <= i < base + 11,
    ensures
        i % 11 == i - base,
{
    assert(i % 11 == i - base) by (nonlinear_arith)
        requires
            base % 11 == 0,
            0 <= base <= i < base + 11,
    ;
}

/// The features of a piece have small coordinates.
proof fn lemma_piece_block_small(b: Board, tile: int, it: Option<int>, f: i16, bu: i16, mv: i16)
    requires
        b.wf(),
        0 <= tile < GRID_SIZE,
        it matches Some(k) ==> 0 <= k < 12,
    ensures
        piece_block(b, tile, it, f, bu, mv).len() == 11,
        forall|j: int| 0 <= j < 6 ==> -32 <= #[trigger] piece_block(b, tile, it, f, bu, mv)[j] <= 32,
{
    assert(b.queens[0int] matches Some(q) ==> q < GRID_SIZE);
    assert(b.queens[1int] matches Some(q) ==> q < GRID_SIZE);
    if let Some(q) = b.queens[0] {
        lemma_cube_delta_small(q as int, tile);
    }
    if let Some(q) = b.queens[1] {
        lemma_cube_delta_small(q as int, tile);
    }
    let dw = queen_delta(b, 0, tile);
    let db = queen_delta(b, 1, tile);
    if let Some(k) = it {
        lemma_d6_small(k, dw);
        lemma_d6_small(k, db);
    }
}

/// Writing a block of small coordinates within the piece features keeps
/// the coordinates small and the histogram as it was.
proof fn lemma_put_block_small(out: Seq<i16>, base: int, vals: Seq<i16>)
    requires
        out.len() == TOTAL_FN,
        base % 11 == 0,
        0 <= base,
        base + 11 <= PIECE_FEATURES_LEN,
        vals.len() == 11,
        forall|j: int| 0 <= j < 6 ==> -32 <= #[trigger] vals[j] <= 32,
        small_coords(out),
    ensures
        put_block(out, base, vals).len() == TOTAL_FN,
        small_coords(put_block(out, base, vals)),
        forall|x: int| PIECE_FEATURES_LEN <= x < TOTAL_FN ==> #[trigger] put_block(out, base, vals)[x] == out[x],
{
    let r = put_block(out, base, vals);
    assert forall|i: int| 0 <= i < PIECE_FEATURES_LEN && i % 11 < 6 implies -32 <= #[trigger] r[i] <= 32 by {
        if base <= i < base + 11 {
            lemma_in_block(base, i);
        }
    }
}

/// Writing buried pieces keeps the coordinates small and the histogram.
proof fn lemma_write_unders_small(out: Seq<i16>, b: Board, tile: int, it: Option<int>, us: Seq<Piece>, n: int)
    requires
        b.wf(),
        0 <= tile < GRID_SIZE,
        it matches Some(k) ==> 0 <= k < 12,
        0 <= n <= us.len(),
        forall|k: int| 0 <= k < us.len() ==> (#[trigger] us[k]).spec_is_some() && numbered(us[k]),
        out.len() == TOTAL_FN,
        small_coords(out),
    ensures
        write_unders(out, b, tile, it, us, n).len() == TOTAL_FN,
        small_coords(write_unders(out, b, tile, it, us, n)),
        forall|x: int|
            PIECE_FEATURES_LEN <= x < TOTAL_FN ==> #[trigger] write_unders(out, b, tile, it, us, n)[x] == out[x],
    decreases n,
{
    if n > 0 {
        lemma_write_unders_small(out, b, tile, it, us, n - 1);
        lemma_slot_base_range(us[n - 1]);
        lemma_piece_block_small(b, tile, it, 1, 1, 0);
        lemma_put_block_small(write_unders(out, b, tile, it, us, n - 1), slot_base(us[n - 1]), piece_block(b, tile, it, 1, 1, 0));
    }
}

/// Writing the pieces of a tile keeps the coordinates small and the
/// histogram.
proof fn lemma_write_tile_small(out: Seq<i16>, b: Board, tile: int, it: Option<int>, wm: Seq<u16>, bm: Seq<u16>)
    requires
        b.wf(),
        0 <= tile < GRID_SIZE,
        b.world@[tile].spec_is_some(),
        it matches Some(k) ==> 0 <= k < 12,
        out.len() == TOTAL_FN,
        small_coords(out),
    ensures
        write_tile(out, b, tile, it, wm, bm).len() == TOTAL_FN,
        small_coords(write_tile(out, b, tile, it, wm, bm)),
        forall|x: int|
            PIECE_FEATURES_LEN <= x < TOTAL_FN ==> #[trigger] write_tile(out, b, tile, it, wm, bm)[x] == out[x],
{
    reveal(write_tile);
    let top = b.world@[tile];
    assert(numbered(top));
    lemma_slot_base_range(top);
    let fixed: i16 = if b@.stacks[tile].len() == 1 && cut_spec(b).contains(tile as Tile) {
        1
    } else {
        0
    };
    let moves = if top.spec_color() == Color::White {
        wm[tile] as i16
    } else {
        bm[tile] as i16
    };
    lemma_piece_block_small(b, tile, it, fixed, 0, moves);
    lemma_put_block_small(out, slot_base(top), top_block(b, tile, it, wm, bm));
    let o1 = put_block(out, slot_base(top), top_block(b, tile, it, wm, bm));
    if b@.stacks[tile].len() > 1 {
        let us = under_at(b.underworld@, tile);
        lemma_under_at_valid(b.underworld@, tile);
        lemma_write_unders_small(o1, b, tile, it, us, us.len() as int);
    }
}

/// Writing the pieces of the first `k` tiles keeps the coordinates small
/// and the histogram.
proof fn lemma_write_tiles_small(out: Seq<i16>, b: Board, tiles: Seq<Tile>, k: int, it: Option<int>, wm: Seq<u16>, bm: Seq<u16>)
    requires
        b.wf(),
        0 <= k <= tiles.len(),
        forall|j: int| 0 <= j < tiles.len() ==> (#[trigger] tiles[j]) < GRID_SIZE && b.world@[tiles[j] as int].spec_is_some(),
        it matches Some(k) ==> 0 <= k < 12,
        out.len() == TOTAL_FN,
        small_coords(out),
    ensures
        write_tiles(out, b, tiles, k, it, wm, bm).len() == TOTAL_FN,
        small_coords(write_tiles(out, b, tiles, k, it, wm, bm)),
        forall|x: int|
            PIECE_FEATURES_LEN <= x < TOTAL_FN ==> #[trigger] write_tiles(out, b, tiles, k, it, wm, bm)[x] == out[x],
    decreases k,
{
    if k > 0 {
        lemma_write_tiles_small(out, b, tiles, k - 1, it, wm, bm);
        lemma_write_tile_small(write_tiles(out, b, tiles, k - 1, it, wm, bm), b, tiles[k - 1] as int, it, wm, bm);
    }
}

impl Board {
    /// Writes the blocks of the pieces of every tile (see `write_tiles`).
    fn write_all_pieces(
        &self,
        out: &mut [i16; 436],
        it: Option<usize>,
        white_moves: &[u16; 1024],
        black_moves: &[u16; 1024],
        immovable: &TileSet,
    )
        requires
            self.wf(),
            immovable.members() == cut_spec(*self),
            it matches Some(k) ==> k < 12,
        ensures
            final(out)@ == write_tiles(old(out)@, *self, occupied_list(*self), occupied_list(*self).len() as int, opt_int(it), white_moves@, black_moves@),
    {
        let ghost tiles = occupied_list(*self);
        let ghost zeros = old(out)@;
        let ghost o0 = self.occupied_tiles[0].occupants@;
        let ghost o1 = self.occupied_tiles[1].occupants@;
        let len0 = self.occupied_tiles[0].occupants.len();
        let len1 = self.occupied_tiles[1].occupants.len();
        proof {
            assert forall|j: int| 0 <= j < tiles.len() implies (#[trigger] tiles[j]) < GRID_SIZE
                && self.world@[tiles[j] as int].spec_is_some() by {
                if j < o0.len() {
                    assert(tiles[j] == o0[j]);
                    assert(self.occupied_tiles[0int].occupants@.contains(tiles[j]));
                } else {
                    assert(tiles[j] == o1[j - o0.len()]);
                    assert(self.occupied_tiles[1int].occupants@.contains(tiles[j]));
                }
            }
        }
        let mut c: usize = 0;
        while c < 2
            invariant
                0 <= c <= 2,
                self.wf(),
                tiles == o0 + o1,
                o0 == self.occupied_tiles[0].occupants@,
                o1 == self.occupied_tiles[1].occupants@,
                len0 == o0.len(),
                len1 == o1.len(),
                immovable.members() == cut_spec(*self),
                it matches Some(k) ==> k < 12,
                out@ == write_tiles(zeros, *self, tiles, if c == 0 { 0 } else if c == 1 { len0 as int } else { (len0 + len1) as int }, opt_int(it), white_moves@, black_moves@),
                forall|j: int| 0 <= j < tiles.len() ==> (#[trigger] tiles[j]) < GRID_SIZE && self.world@[tiles[j] as int].spec_is_some(),
            decreases 2 - c,
        {
            let n = self.occupied_tiles[c].occupants.len();
            let mut i: usize = 0;
            while i < n
                invariant
                    0 <= c < 2,
                    0 <= i <= n,
                    n == self.occupied_tiles[c as int].occupants@.len(),
                    self.wf(),
                    tiles == o0 + o1,
                    o0 == self.occupied_tiles[0].occupants@,
                    o1 == self.occupied_tiles[1].occupants@,
                    len0 == o0.len(),
                    immovable.members() == cut_spec(*self),
                    it matches Some(k) ==> k < 12,
                    out@ == write_tiles(zeros, *self, tiles, if c == 0 { i as int } else { len0 + i }, opt_int(it), white_moves@, black_moves@),
                    forall|j: int| 0 <= j < tiles.len() ==> (#[trigger] tiles[j]) < GRID_SIZE && self.world@[tiles[j] as int].spec_is_some(),
                decreases n - i,
            {
                let tile = self.occupied_tiles[c].occupants[i];
                let ghost idx = if c == 0 { i as int } else { len0 + i };
                assert(tiles[idx] == tile);
                self.write_tile_exec(out, tile, it, white_moves, black_moves, immovable);
                i += 1;
            }
            c += 1;
        }
    }

    /// Counts the pairs of neighbouring pieces (see `hist_tiles`).
    fn count_all_pairs(&self, out: &mut [i16; 436])
        requires
            self.wf(),
            few_pieces(*self),
            hist_within(old(out)@, 0),
        ensures
            final(out)@ == hist_tiles(old(out)@, *self, occupied_list(*self), occupied_list(*self).len() as int),
            same_pieces(final(out)@, old(out)@),
    {
        let ghost tiles = occupied_list(*self);
        let ghost w = old(out)@;
        let ghost o0 = self.occupied_tiles[0].occupants@;
        let ghost o1 = self.occupied_tiles[1].occupants@;
        let len0 = self.occupied_tiles[0].occupants.len();
        let len1 = self.occupied_tiles[1].occupants.len();
        proof {
            assert forall|j: int| 0 <= j < tiles.len() implies (#[trigger] tiles[j]) < GRID_SIZE
                && self.world@[tiles[j] as int].spec_is_some() by {
                if j < o0.len() {
                    assert(tiles[j] == o0[j]);
                    assert(self.occupied_tiles[0int].occupants@.contains(tiles[j]));
                } else {
                    assert(tiles[j] == o1[j - o0.len()]);
                    assert(self.occupied_tiles[1int].occupants@.contains(tiles[j]));
                }
            }
        }
        let mut seen = [false; 1024];
        assert forall|t: int| 0 <= t < GRID_SIZE implies #[trigger] seen@[t] == tiles.subrange(0, 0).contains(t as Tile) by {}
        let mut c: usize = 0;
        while c < 2
            invariant
                0 <= c <= 2,
                self.wf(),
                tiles == o0 + o1,
                o0 == self.occupied_tiles[0].occupants@,
                o1 == self.occupied_tiles[1].occupants@,
                len0 == o0.len(),
                len1 == o1.len(),
                len0 + len1 < 254,
                out@ == hist_tiles(w, *self, tiles, if c == 0 { 0 } else if c == 1 { len0 as int } else { (len0 + len1) as int }),
                forall|t: int| 0 <= t < GRID_SIZE ==> #[trigger] seen@[t] == tiles.subrange(0, if c == 0 { 0 } else if c == 1 { len0 as int } else { (len0 + len1) as int }).contains(t as Tile),
                hist_within(out@, 6 * (if c == 0 { 0 } else if c == 1 { len0 as int } else { (len0 + len1) as int })),
                same_pieces(out@, w),
                forall|j: int| 0 <= j < tiles.len() ==> (#[trigger] tiles[j]) < GRID_SIZE && self.world@[tiles[j] as int].spec_is_some(),
            decreases 2 - c,
        {
            let n = self.occupied_tiles[c].occupants.len();
            let mut i: usize = 0;
            while i < n
                invariant
                    0 <= c < 2,
                    0 <= i <= n,
                    n == self.occupied_tiles[c as int].occupants@.len(),
                    self.wf(),
                    tiles == o0 + o1,
                    o0 == self.occupied_tiles[0].occupants@,
                    o1 == self.occupied_tiles[1].occupants@,
                    len0 == o0.len(),
                    len0 + o1.len() < 254,
                    out@ == hist_tiles(w, *self, tiles, if c == 0 { i as int } else { len0 + i }),
                    forall|t: int| 0 <= t < GRID_SIZE ==> #[trigger] seen@[t] == tiles.subrange(0, if c == 0 { i as int } else { len0 + i }).contains(t as Tile),
                    hist_within(out@, 6 * (if c == 0 { i as int } else { len0 + i })),
                    same_pieces(out@, w),
                    forall|j: int| 0 <= j < tiles.len() ==> (#[trigger] tiles[j]) < GRID_SIZE && self.world@[tiles[j] as int].spec_is_some(),
                decreases n - i,
            {
                let tile = self.occupied_tiles[c].occupants[i];
                let ghost idx = if c == 0 { i as int } else { len0 + i };
                assert(tiles[idx] == tile);
                seen[tile as usize] = true;
                proof {
                    assert forall|t: int| 0 <= t < GRID_SIZE implies #[trigger] seen@[t] == tiles.subrange(0, idx + 1).contains(t as Tile) by {
                        let s0 = tiles.subrange(0, idx);
                        let s1 = tiles.subrange(0, idx + 1);
                        assert(s1 =~= s0.push(tile));
                        if s1.contains(t as Tile) {
                            let j = choose|j: int| 0 <= j < s1.len() && s1[j] == t as Tile;
                            if j < idx {
                                assert(s0[j] == t as Tile);
                            }
                        }
                        if s0.contains(t as Tile) {
                            let j = choose|j: int| 0 <= j < s0.len() && s0[j] == t as Tile;
                            assert(s1[j] == t as Tile);
                        }
                        if t == tile as int {
                            assert(s1[idx] == tile);
                        }
                    }
                }
                self.hist_tile_exec(out, tile, &seen, Ghost(tiles), Ghost(idx), Ghost(6 * idx));
                i += 1;
            }
            c += 1;
        }
    }
}

impl Board {
    /// The feature vector of the position, with `white_moves` and
    /// `black_moves` the moves of each player by starting tile (see
    /// `features_spec`).
    pub fn features_for_both(&mut self, white_moves: [u16; 1024], black_moves: [u16; 1024]) -> (r: [i16; 436])
        requires
            old(self).wf(),
            few_pieces(*old(self)),
        ensures
            *final(self) == *old(self),
            r@ == features_spec(*old(self), white_moves@, black_moves@),
    {
        let immovable = self.find_cut_vertexes();
        let it = self.inline_symmetry();
        let ghost tiles = occupied_list(*self);
        let ghost zeros = Seq::new(TOTAL_FN as nat, |i: int| 0i16);
        let ghost o0 = self.occupied_tiles[0].occupants@;
        let ghost o1 = self.occupied_tiles[1].occupants@;
        let mut out = [0i16; 436];
        assert(out@ =~= zeros);
        proof {
            assert forall|j: int| 0 <= j < tiles.len() implies (#[trigger] tiles[j]) < GRID_SIZE
                && self.world@[tiles[j] as int].spec_is_some() by {
                if j < o0.len() {
                    assert(tiles[j] == o0[j]);
                    assert(self.occupied_tiles[0int].occupants@.contains(tiles[j]));
                } else {
                    assert(tiles[j] == o1[j - o0.len()]);
                    assert(self.occupied_tiles[1int].occupants@.contains(tiles[j]));
                }
            }
        }
        self.write_all_pieces(&mut out, it, &white_moves, &black_moves, &immovable);
        let ghost w = out@;
        proof {
            lemma_write_tiles_small(zeros, *self, tiles, tiles.len() as int, opt_int(it), white_moves@, black_moves@);
            assert(opt_int(it) == inline_transform(*self));
            assert(hist_within(w, 0));
        }
        self.count_all_pairs(&mut out);
        proof {
            assert(coords_negatable(out@)) by {
                assert forall|i: int| 0 <= i < PIECE_FEATURES_LEN && i % (PIECE_FN as int) < 6 implies negatable(#[trigger] out@[i] as int) by {
                    assert(out@[i] == w[i]);
                }
            }
        }
        if it.is_some() {
            crate::features::sort_all_piece_groups(&mut out);
            out
        } else {
            Board::canonicalize_features(&out)
        }
    }
}

proof fn lemma_hist_dirs_pieces(out: Seq<i16>, b: Board, tiles: Seq<Tile>, k: int, d: int)
    requires
        out.len() == TOTAL_FN,
    ensures
        hist_dirs(out, b, tiles, k, d).len() == TOTAL_FN,
        same_pieces(hist_dirs(out, b, tiles, k, d), out),
    decreases d,
{
    if d > 0 {
        lemma_hist_dirs_pieces(out, b, tiles, k, d - 1);
        let tile = tiles[k] as int;
        let adj = step(tile, dir_at(d - 1));
        crate::features::lemma_adj_idx_range(category(b.world@[tile]), category(b.world@[adj]));
    }
}

proof fn lemma_hist_tiles_pieces(out: Seq<i16>, b: Board, tiles: Seq<Tile>, k: int)
    requires
        out.len() == TOTAL_FN,
    ensures
        hist_tiles(out, b, tiles, k).len() == TOTAL_FN,
        same_pieces(hist_tiles(out, b, tiles, k), out),
    decreases k,
{
    if k > 0 {
        lemma_hist_tiles_pieces(out, b, tiles, k - 1);
        lemma_hist_dirs_pieces(hist_tiles(out, b, tiles, k - 1), b, tiles, k - 1, 6);
    }
}

/// Where the queens do not fix a single orientation of the board, the
/// feature vector is in canonical form: canonicalising it gives it back.
pub proof fn lemma_features_canonical(b: Board, wm: Seq<u16>, bm: Seq<u16>)
    requires
        b.wf(),
        inline_transform(b) is None,
    ensures
        canonical(features_spec(b, wm, bm)) == features_spec(b, wm, bm),
{
    let tiles = occupied_list(b);
    let zeros = Seq::new(TOTAL_FN as nat, |i: int| 0i16);
    let o0 = b.occupied_tiles[0].occupants@;
    let o1 = b.occupied_tiles[1].occupants@;
    assert forall|j: int| 0 <= j < tiles.len() implies (#[trigger] tiles[j]) < GRID_SIZE
        && b.world@[tiles[j] as int].spec_is_some() by {
        if j < o0.len() {
            assert(tiles[j] == o0[j]);
            assert(b.occupied_tiles[0int].occupants@.contains(tiles[j]));
        } else {
            assert(tiles[j] == o1[j - o0.len()]);
            assert(b.occupied_tiles[1int].occupants@.contains(tiles[j]));
        }
    }
    lemma_write_tiles_small(zeros, b, tiles, tiles.len() as int, None, wm, bm);
    let w = write_tiles(zeros, b, tiles, tiles.len() as int, None, wm, bm);
    lemma_hist_tiles_pieces(w, b, tiles, tiles.len() as int);
    let raw = raw_features(b, wm, bm);
    assert(coords_negatable(raw)) by {
        assert forall|i: int| 0 <= i < PIECE_FEATURES_LEN && i % (PIECE_FN as int) < 6 implies negatable(
            #[trigger] raw[i] as int,
        ) by {
            assert(raw[i] == w[i]);
        }
    }
    crate::slot_order::lemma_canonical_idempotent(raw);
}

/// The number of movements among the first `n` of `moves` that start on
/// each tile, modulo 2^16.
pub open spec fn move_counts(moves: Seq<Action>, n: int) -> Seq<u16>
    decreases n,
{
    if n <= 0 {
        Seq::new(GRID_SIZE as nat, |t: int| 0u16)
    } else {
        let prev = move_counts(moves, n - 1);
        match moves[n - 1].spec_kind() {
            ActionKind::Move(f, _) => prev.update(f as int, prev[f as int].wrapping_add(1)),
            _ => prev,
        }
    }
}

/// The movements of `moves` by starting tile.
pub open spec fn counts_of(moves: Seq<Action>) -> Seq<u16> {
    move_counts(moves, moves.len() as int)
}

/// The number of movements of `moves` starting on each tile (counted
/// modulo 2^16).
pub fn movements_by_tile(moves: &Vec<Action>) -> (r: [u16; 1024])
    requires
        forall|i: int| 0 <= i < moves@.len() ==> (#[trigger] moves@[i]).wf(),
    ensures
        r@ == counts_of(moves@),
{
    let mut counts = [0u16; 1024];
    assert(counts@ =~= move_counts(moves@, 0));
    let mut i: usize = 0;
    while i < moves.len()
        invariant
            0 <= i <= moves@.len(),
            forall|j: int| 0 <= j < moves@.len() ==> (#[trigger] moves@[j]).wf(),
            counts@ == move_counts(moves@, i as int),
        decreases moves@.len() - i,
    {
        let a = moves[i];
        assert(a.wf());
        match a.kind() {
            ActionKind::Move(from, _) => {
                let c = counts[from as usize];
                counts[from as usize] = c.wrapping_add(1);
            },
            _ => {},
        }
        i += 1;
    }
    counts
}

/// The board with the other player to move.
pub open spec fn turned(b: Board) -> Board {
    Board { turn_num: (b.turn_num + 1) as usize, ..b }
}

/// The feature vector when the player to move has the moves `mine`: the
/// opponent's moves are those it would have if it were to move.
pub open spec fn features_with(b: Board, mine: Seq<Action>) -> Seq<i16> {
    let theirs = counts_of(moves_spec(turned(b)));
    if color_of_turn(b.turn_num as int) == Color::White {
        features_spec(b, counts_of(mine), theirs)
    } else {
        features_spec(b, theirs, counts_of(mine))
    }
}

impl Board {
    /// The legal movements of the player to move, by starting tile.
    pub fn generate_movements_by_tile(&self) -> (r: [u16; 1024])
        requires
            self.wf(),
            few_pieces(*self),
        ensures
            r@ == counts_of(moves_spec(*self)),
    {
        let moves = self.generate_moves();
        assert forall|i: int| 0 <= i < moves@.len() implies (#[trigger] moves@[i]).wf() by {
            assert(crate::movegen::gen_ok(*self, moves@[i]));
        }
        movements_by_tile(&moves)
    }

    /// The feature vector of the position with `moves` the moves of the
    /// player to move (see `features_with`).
    pub fn features_fast(&mut self, moves: &Vec<Action>) -> (r: [i16; 436])
        requires
            old(self).wf(),
            few_pieces(*old(self)),
            old(self).turn_num < usize::MAX,
            forall|i: int| 0 <= i < moves@.len() ==> (#[trigger] moves@[i]).wf(),
        ensures
            *final(self) == *old(self),
            r@ == features_with(*old(self), moves@),
    {
        let is_white = self.color() == Color::White;
        let my_moves = movements_by_tile(moves);
        self.turn_num += 1;
        assert(*self == turned(*old(self)));
        let other_moves = self.generate_movements_by_tile();
        self.turn_num -= 1;
        if is_white {
            self.features_for_both(my_moves, other_moves)
        } else {
            self.features_for_both(other_moves, my_moves)
        }
    }

    /// The feature vector of the position (see `features_with`, with the
    /// legal moves of the player to move).
    pub fn features_slow(&mut self) -> (r: [i16; 436])
        requires
            old(self).wf(),
            few_pieces(*old(self)),
            old(self).turn_num < usize::MAX,
        ensures
            *final(self) == *old(self),
            r@ == features_with(*old(self), moves_spec(*old(self))),
    {
        let moves = self.generate_moves();
        assert forall|i: int| 0 <= i < moves@.len() implies (#[trigger] moves@[i]).wf() by {
            assert(crate::movegen::gen_ok(*self, moves@[i]));
        }
        self.features_fast(&moves)
    }
}

} // verus!
