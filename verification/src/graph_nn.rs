//! Pieces as graph tokens: each of the 28 pieces of a game has a fixed
//! token index, white pieces first, and within a color the bug types in
//! index order, each with as many tokens as the bug has copies.

use vstd::prelude::*;
use crate::piece::{Color, Piece, color_index, spec_other};
use crate::piece_type::{Pct, PieceType, pct_index, pct_from_index};
use crate::board::{Board, under_at, color_of_turn, numbered};
use crate::feature_vector::lemma_under_at_valid;
use crate::cut::cut_spec;
use crate::abstractions::TileSet;
use crate::feature_vector::{counts_of, movements_by_tile, turned};
use crate::action::{Action, ActionKind};
use crate::movegen::{moves_spec, few_pieces, queen_required_spec};
use crate::tile::{adjacent, step, dir_at, spec_tile_to_loc, tile_to_loc, Tile, GRID_SIZE};

verus! {

/// Tokens in a graph: one per piece of both players.
pub const NUM_TOKENS: usize = 28;

/// Tokens of one player.
pub const TOKENS_PER_SIDE: usize = 14;

/// Features per token.
pub const TOKEN_FEAT_DIM: usize = 8;

/// Cells of the token adjacency matrix.
pub const ADJ_MATRIX_SIZE: usize = 784;

/// Copies of each bug type a player has, by type index.
pub const TOT_QTY: [u8; 8] = [1u8, 3u8, 2u8, 3u8, 2u8, 1u8, 1u8, 1u8];

/// First token of each bug type within a player's tokens, by type index.
pub const PCT_OFFSETS: [usize; 8] = [0usize, 1usize, 4usize, 6usize, 9usize, 11usize, 12usize, 13usize];

/// Copies of bug type `p` a player has.
pub open spec fn tot_qty(p: PieceType) -> int {
    match p {
        PieceType::Queen => 1,
        PieceType::Grasshopper => 3,
        PieceType::Spider => 2,
        PieceType::Ant => 3,
        PieceType::Beetle => 2,
        PieceType::Mosquito => 1,
        PieceType::Ladybug => 1,
        PieceType::Pillbug => 1,
    }
}

/// First token of bug type `p` within a player's tokens.
pub open spec fn pct_offset(p: PieceType) -> int {
    match p {
        PieceType::Queen => 0,
        PieceType::Grasshopper => 1,
        PieceType::Spider => 4,
        PieceType::Ant => 6,
        PieceType::Beetle => 9,
        PieceType::Mosquito => 11,
        PieceType::Ladybug => 12,
        PieceType::Pillbug => 13,
    }
}

/// The token of piece number `num` of bug type `pct` of player `color`.
pub open spec fn token_spec(color: Color, pct: PieceType, num: int) -> int {
    14 * color_index(color) + pct_offset(pct) + num - 1
}

/// A piece number that the bug type has.
pub open spec fn valid_num(pct: PieceType, num: int) -> bool {
    1 <= num <= tot_qty(pct)
}

/// The token of piece number `num` (from 1) of bug type `pct` of player
/// `color`.
pub fn piece_to_token_idx(color: Color, pct: Pct, num: u8) -> (r: usize)
    requires
        valid_num(pct, num as int),
    ensures
        r == token_spec(color, pct, num as int),
        r < NUM_TOKENS,
{
    let base: usize = if color == Color::Black {
        TOKENS_PER_SIDE
    } else {
        0
    };
    let p = pct.index();
    assert(PCT_OFFSETS[p as int] == pct_offset(pct));
    base + PCT_OFFSETS[p] + (num as usize - 1)
}

/// The piece that token `idx` stands for: its player, bug type and number.
pub fn token_idx_to_piece(idx: usize) -> (r: (Color, Pct, u8))
    requires
        idx < NUM_TOKENS,
    ensures
        valid_num(r.1, r.2 as int),
        token_spec(r.0, r.1, r.2 as int) == idx,
{
    let color = if idx >= TOKENS_PER_SIDE {
        Color::Black
    } else {
        Color::White
    };
    let local = idx % TOKENS_PER_SIDE;
    assert(idx == 14 * color_index(color) + local) by (nonlinear_arith)
        requires
            idx < 28,
            local == idx % 14,
            color_index(color) == (if idx >= 14 { 1int } else { 0int }),
    ;
    let mut k: usize = 8;
    while k > 0
        invariant
            0 <= k <= 8,
            local < 14,
            idx == 14 * color_index(color) + local,
            forall|q: int| k <= q < 8 ==> local < #[trigger] pct_offset(pct_from_index(q)),
        decreases k,
    {
        let q = k - 1;
        let offset = PCT_OFFSETS[q];
        assert(offset == pct_offset(pct_from_index(q as int)));
        if local >= offset {
            let pct = PieceType::from_index(q as u8);
            assert(pct == pct_from_index(q as int));
            let num = (local - offset + 1) as u8;
            proof {
                if q < 7 {
                    assert(local < pct_offset(pct_from_index(q + 1)));
                }
            }
            return (color, pct, num);
        }
        k = q;
    }
    assert(local < pct_offset(pct_from_index(0)));
    (color, PieceType::Queen, 1)
}

/// Every piece of a game has its own token, and the token gives the piece
/// back.
pub proof fn lemma_token_bijective(c1: Color, p1: PieceType, n1: int, c2: Color, p2: PieceType, n2: int)
    requires
        valid_num(p1, n1),
        valid_num(p2, n2),
    ensures
        0 <= token_spec(c1, p1, n1) < NUM_TOKENS,
        token_spec(c1, p1, n1) == token_spec(c2, p2, n2) ==> c1 == c2 && p1 == p2 && n1 == n2,
{
}

/// The kind of an edge between two tokens: none, one of the six
/// directions from the first to the second, the second on top of the
/// first or below it, or a token with itself.
#[derive(Clone, Copy, Debug, PartialEq, Eq, Structural)]
pub enum EdgeType {
    NoEdge,
    NW,
    NE,
    E,
    SE,
    SW,
    W,
    StackUp,
    StackDown,
    SelfLoop,
}

/// The byte that stands for an edge kind, in declaration order from 0.
pub open spec fn edge_code(e: EdgeType) -> u8 {
    match e {
        EdgeType::NoEdge => 0,
        EdgeType::NW => 1,
        EdgeType::NE => 2,
        EdgeType::E => 3,
        EdgeType::SE => 4,
        EdgeType::SW => 5,
        EdgeType::W => 6,
        EdgeType::StackUp => 7,
        EdgeType::StackDown => 8,
        EdgeType::SelfLoop => 9,
    }
}

impl EdgeType {
    /// The byte that stands for this edge kind.
    pub fn code(self) -> (r: u8)
        ensures
            r == edge_code(self),
    {
        match self {
            EdgeType::NoEdge => 0,
            EdgeType::NW => 1,
            EdgeType::NE => 2,
            EdgeType::E => 3,
            EdgeType::SE => 4,
            EdgeType::SW => 5,
            EdgeType::W => 6,
            EdgeType::StackUp => 7,
            EdgeType::StackDown => 8,
            EdgeType::SelfLoop => 9,
        }
    }
}

/// A position as a graph: one row of features per piece (type and color,
/// height, pinned, buried, move count) and the edges between pieces
/// (source, destination, edge kind).
pub struct GameGraph {
    pub features: Vec<[i8; 5]>,
    pub edges: Vec<[u8; 3]>,
}

impl GameGraph {
    /// A graph with no pieces and no edges.
    pub fn new() -> (r: GameGraph)
        ensures
            r.features@.len() == 0,
            r.edges@.len() == 0,
    {
        GameGraph { features: Vec::new(), edges: Vec::new() }
    }
}

/// The tiles with a piece, the player to move's first.
pub open spec fn mover_first_tiles(b: Board) -> Seq<Tile> {
    b.occupied_tiles[color_index(color_of_turn(b.turn_num as int))].occupants@
        + b.occupied_tiles[color_index(spec_other(color_of_turn(b.turn_num as int)))].occupants@
}

/// The node of the bottom piece of `tiles[k]`: the pieces of the earlier
/// tiles counted (modulo 256).
pub open spec fn first_node(b: Board, tiles: Seq<Tile>, k: int) -> u8
    decreases k,
{
    if k <= 0 {
        0
    } else {
        first_node(b, tiles, k - 1).wrapping_add(b@.stacks[tiles[k - 1] as int].len() as u8)
    }
}

/// For each tile, the node of its bottom piece, as set for the first `k`
/// tiles.
pub open spec fn node_table(b: Board, tiles: Seq<Tile>, k: int) -> Seq<u8>
    decreases k,
{
    if k <= 0 {
        Seq::new(GRID_SIZE as nat, |t: int| 0u8)
    } else {
        node_table(b, tiles, k - 1).update(tiles[k - 1] as int, first_node(b, tiles, k - 1))
    }
}

/// The row of a piece: its kind (its type, plus 8 for the opponent of
/// `mover`), its level, pinned, buried, and its moves.
pub open spec fn graph_row(p: Piece, mover: Color, level: i8, fixed: i8, buried: i8, moves: i8) -> Seq<i8> {
    seq![
        ((if p.spec_color() != mover { 8int } else { 0int }) + pct_index(p.spec_ptype())) as i8,
        level,
        fixed,
        buried,
        moves,
    ]
}

/// The rows and the stacking edges of the first `n` buried pieces `us` of
/// a tile, from node `cur` on.
pub open spec fn unders_fold(rows: Seq<Seq<i8>>, edges: Seq<Seq<u8>>, cur: u8, us: Seq<Piece>, n: int, mover: Color, cut: bool) -> (Seq<Seq<i8>>, Seq<Seq<u8>>, u8)
    decreases n,
{
    if n <= 0 {
        (rows, edges, cur)
    } else {
        let (r0, e0, c0) = unders_fold(rows, edges, cur, us, n - 1, mover, cut);
        let fixed: i8 = if n - 1 == 0 && cut {
            1
        } else {
            0
        };
        (
            r0.push(graph_row(us[n - 1], mover, (n - 1) as i8, fixed, 1, 0)),
            e0.push(seq![c0, c0.wrapping_add(1), 6u8]),
            c0.wrapping_add(1),
        )
    }
}

/// The edges from node `cur` on tile `t` to the top pieces of its first
/// `d` neighbours that hold a piece, labelled with the direction.
pub open spec fn adj_edges(b: Board, t: int, cur: u8, table: Seq<u8>, d: int) -> Seq<Seq<u8>>
    decreases d,
{
    if d <= 0 {
        Seq::empty()
    } else {
        let prev = adj_edges(b, t, cur, table, d - 1);
        let a = step(t, dir_at(d - 1));
        if b.world@[a].spec_is_some() {
            prev.push(seq![cur, table[a].wrapping_add(b@.stacks[a].len() as u8).wrapping_sub(1), (d - 1) as u8])
        } else {
            prev
        }
    }
}

/// The rows and edges of the pieces of the first `k` tiles, and the next
/// node.
pub open spec fn graph_fold(b: Board, tiles: Seq<Tile>, k: int, table: Seq<u8>, moves: Seq<u16>) -> (Seq<Seq<i8>>, Seq<Seq<u8>>, u8)
    decreases k,
{
    if k <= 0 {
        (Seq::empty(), Seq::empty(), 0)
    } else {
        let (f, e, cur) = graph_fold(b, tiles, k - 1, table, moves);
        let t = tiles[k - 1] as int;
        let h = b@.stacks[t].len();
        let mover = color_of_turn(b.turn_num as int);
        let cut = cut_spec(b).contains(t as Tile);
        let (f1, e1, c1) = if h > 1 {
            let us = under_at(b.underworld@, t);
            unders_fold(f, e, cur, us, us.len() as int, mover, cut)
        } else {
            (f, e, cur)
        };
        let fixed: i8 = if cut && h == 1 {
            1
        } else {
            0
        };
        (
            f1.push(graph_row(b.world@[t], mover, (h - 1) as i8, fixed, 0, moves[t] as i8)),
            e1 + adj_edges(b, t, c1, table, 6),
            c1.wrapping_add(1),
        )
    }
}

/// The graph of a position: its rows and edges (see `graph_fold`).
pub open spec fn graph_spec(b: Board) -> (Seq<Seq<i8>>, Seq<Seq<u8>>) {
    let tiles = mover_first_tiles(b);
    let g = graph_fold(b, tiles, tiles.len() as int, node_table(b, tiles, tiles.len() as int), counts_of(moves_spec(b)));
    (g.0, g.1)
}

/// The rows of a vector of rows.
pub open spec fn row_view(v: Seq<[i8; 5]>) -> Seq<Seq<i8>> {
    v.map_values(|a: [i8; 5]| a@)
}

/// The edges of a vector of edges.
pub open spec fn edge_view(v: Seq<[u8; 3]>) -> Seq<Seq<u8>> {
    v.map_values(|a: [u8; 3]| a@)
}

/// The row of a piece (see `graph_row`).
fn row_of(p: Piece, mover: Color, level: i8, fixed: i8, buried: i8, moves: i8) -> (r: [i8; 5])
    ensures
        r@ == graph_row(p, mover, level, fixed, buried, moves),
{
    let base: i8 = if p.color() != mover {
        8
    } else {
        0
    };
    let r = [base + p.ptype().index() as i8, level, fixed, buried, moves];
    assert(r@ =~= graph_row(p, mover, level, fixed, buried, moves));
    r
}

impl Board {
    /// Appends the rows and stacking edges of the buried pieces of `t`
    /// (see `unders_fold`).
    fn push_unders(
        &self,
        t: Tile,
        mover: Color,
        pinned: bool,
        features: &mut Vec<[i8; 5]>,
        edges: &mut Vec<[u8; 3]>,
        cur: u8,
    ) -> (r: u8)
        requires
            self.wf(),
            t < GRID_SIZE,
        ensures
            ({
                let us = under_at(self.underworld@, t as int);
                let g = unders_fold(row_view(old(features)@), edge_view(old(edges)@), cur, us, us.len() as int, mover, pinned);
                row_view(final(features)@) == g.0 && edge_view(final(edges)@) == g.1 && r == g.2
            }),
    {
        let us = self.underworld_at(t);
        let mut c = cur;
        let ghost f0 = row_view(features@);
        let ghost e0 = edge_view(edges@);
        let mut i: usize = 0;
        while i < us.len()
            invariant
                0 <= i <= us@.len(),
                us@ == under_at(self.underworld@, t as int),
                ({
                    let g = unders_fold(f0, e0, cur, us@, i as int, mover, pinned);
                    row_view(features@) == g.0 && edge_view(edges@) == g.1 && c == g.2
                }),
            decreases us@.len() - i,
        {
            let p = us[i];
            let fixed: i8 = if i == 0 && pinned {
                1
            } else {
                0
            };
            let row = row_of(p, mover, i as i8, fixed, 1, 0);
            let ghost fr = features@;
            let ghost er = edges@;
            features.push(row);
            edges.push([c, c.wrapping_add(1), 6]);
            proof {
                assert(row_view(features@) =~= row_view(fr).push(row@));
                let e = [c, c.wrapping_add(1), 6u8];
                assert(e@ =~= seq![c, c.wrapping_add(1), 6u8]);
                assert(edge_view(edges@) =~= edge_view(er).push(e@));
            }
            c = c.wrapping_add(1);
            i += 1;
        }
        c
    }

    /// Appends the edges from node `cur` on `t` to its neighbours (see
    /// `adj_edges`).
    fn push_adj_edges(&self, t: Tile, cur: u8, table: &[u8; 1024], edges: &mut Vec<[u8; 3]>)
        requires
            self.wf(),
            t < GRID_SIZE,
        ensures
            edge_view(final(edges)@) == edge_view(old(edges)@) + adj_edges(*self, t as int, cur, table@, 6),
    {
        let around = adjacent(t);
        let ghost e0 = edge_view(edges@);
        let mut d: usize = 0;
        while d < 6
            invariant
                0 <= d <= 6,
                self.wf(),
                forall|j: int| 0 <= j < 6 ==> around@[j] == #[trigger] step(t as int, dir_at(j)),
                forall|j: int| 0 <= j < 6 ==> around@[j] < GRID_SIZE,
                edge_view(edges@) == e0 + adj_edges(*self, t as int, cur, table@, d as int),
            decreases 6 - d,
        {
            let a = around[d];
            if self.occupied(a) {
                let h = self.height(a) as u8;
                let e = [cur, table[a as usize].wrapping_add(h).wrapping_sub(1), d as u8];
                let ghost er = edges@;
                edges.push(e);
                proof {
                    assert(e@ =~= seq![cur, table@[a as int].wrapping_add(self@.stacks[a as int].len() as u8).wrapping_sub(1), d as u8]);
                    assert(edge_view(edges@) =~= edge_view(er).push(e@));
                    assert(e0 + adj_edges(*self, t as int, cur, table@, d + 1) =~= (e0 + adj_edges(*self, t as int, cur, table@, d as int)).push(e@));
                }
            } else {
                assert(e0 + adj_edges(*self, t as int, cur, table@, d + 1) =~= e0 + adj_edges(*self, t as int, cur, table@, d as int));
            }
            d += 1;
        }
    }

    /// The graph of the position (see `graph_spec`).
    pub fn get_graph(&mut self) -> (r: GameGraph)
        requires
            old(self).wf(),
            few_pieces(*old(self)),
        ensures
            *final(self) == *old(self),
            row_view(r.features@) == graph_spec(*old(self)).0,
            edge_view(r.edges@) == graph_spec(*old(self)).1,
    {
        let moves = self.generate_movements_by_tile();
        let cut = self.find_cut_vertexes();
        let tiles = self.all_occupied_tiles();
        assert(tiles@ == mover_first_tiles(*self));
        let mover = self.color();
        proof {
            let c = color_index(color_of_turn(self.turn_num as int));
            let o = color_index(spec_other(color_of_turn(self.turn_num as int)));
            assert forall|j: int| 0 <= j < tiles@.len() implies (#[trigger] tiles@[j]) < GRID_SIZE
                && self.world@[tiles@[j] as int].spec_is_some() by {
                let n0 = self.occupied_tiles[c].occupants@.len();
                if j < n0 {
                    assert(tiles@[j] == self.occupied_tiles[c].occupants@[j]);
                    assert(self.occupied_tiles[c].occupants@.contains(tiles@[j]));
                } else {
                    assert(tiles@[j] == self.occupied_tiles[o].occupants@[j - n0]);
                    assert(self.occupied_tiles[o].occupants@.contains(tiles@[j]));
                }
            }
        }
        let mut table = [0u8; 1024];
        let mut next: u8 = 0;
        assert(table@ =~= node_table(*self, tiles@, 0));
        let mut k: usize = 0;
        while k < tiles.len()
            invariant
                0 <= k <= tiles@.len(),
                self.wf(),
                forall|j: int| 0 <= j < tiles@.len() ==> (#[trigger] tiles@[j]) < GRID_SIZE,
                table@ == node_table(*self, tiles@, k as int),
                next == first_node(*self, tiles@, k as int),
            decreases tiles@.len() - k,
        {
            let t = tiles[k];
            table[t as usize] = next;
            next = next.wrapping_add(self.height(t) as u8);
            k += 1;
        }
        let ghost tab = table@;
        let mut features: Vec<[i8; 5]> = Vec::new();
        let mut edges: Vec<[u8; 3]> = Vec::new();
        let mut cur: u8 = 0;
        assert(row_view(features@) =~= Seq::<Seq<i8>>::empty());
        assert(edge_view(edges@) =~= Seq::<Seq<u8>>::empty());
        let mut k: usize = 0;
        while k < tiles.len()
            invariant
                0 <= k <= tiles@.len(),
                self.wf(),
                forall|j: int| 0 <= j < tiles@.len() ==> (#[trigger] tiles@[j]) < GRID_SIZE
                    && self.world@[tiles@[j] as int].spec_is_some(),
                table@ == tab,
                cut.members() == cut_spec(*self),
                moves@ == counts_of(moves_spec(*self)),
                mover == color_of_turn(self.turn_num as int),
                ({
                    let g = graph_fold(*self, tiles@, k as int, tab, moves@);
                    row_view(features@) == g.0 && edge_view(edges@) == g.1 && cur == g.2
                }),
            decreases tiles@.len() - k,
        {
            let t = tiles[k];
            let h = self.height(t);
            let top = self.tile(t);
            let pinned = cut.get(t);
            assert(pinned == cut_spec(*self).contains(t)) by {
                assert(cut.members().contains(t) == cut.has(t as int));
            }
            if h > 1 {
                cur = self.push_unders(t, mover, pinned, &mut features, &mut edges, cur);
            }
            let fixed: i8 = if pinned && h == 1 {
                1
            } else {
                0
            };
            let row = row_of(top, mover, (h - 1) as i8, fixed, 0, moves[t as usize] as i8);
            let ghost fr = features@;
            features.push(row);
            assert(row_view(features@) =~= row_view(fr).push(row@));
            self.push_adj_edges(t, cur, &table, &mut edges);
            cur = cur.wrapping_add(1);
            k += 1;
        }
        GameGraph { features, edges }
    }
}

/// A piece on the board as a token: its token, its tile, its level in the
/// stack (0 at the bottom) and whether it tops the stack.
#[derive(Clone, Copy, Debug, PartialEq, Eq, Structural)]
pub struct PlacedPiece {
    pub token: usize,
    pub tile: Tile,
    pub level: usize,
    pub top: bool,
}

/// The token of a piece on the board.
pub open spec fn piece_token(p: Piece) -> usize {
    token_spec(p.spec_color(), p.spec_ptype(), p.spec_num() as int) as usize
}

/// The pieces of tile `t` as tokens: the buried ones bottom first (only
/// when the stack has more than one piece), then the top one.
pub open spec fn tile_pieces(b: Board, t: Tile) -> Seq<PlacedPiece> {
    let h = b@.stacks[t as int].len();
    let us = if h > 1 {
        under_at(b.underworld@, t as int)
    } else {
        Seq::<Piece>::empty()
    };
    Seq::new(us.len(), |i: int| PlacedPiece { token: piece_token(us[i]), tile: t, level: i as usize, top: false }).push(
        PlacedPiece { token: piece_token(b.world@[t as int]), tile: t, level: (h - 1) as usize, top: true },
    )
}

/// The pieces of the first `k` tiles of `tiles` as tokens.
pub open spec fn placed_fold(b: Board, tiles: Seq<Tile>, k: int) -> Seq<PlacedPiece>
    decreases k,
{
    if k <= 0 {
        Seq::empty()
    } else {
        placed_fold(b, tiles, k - 1) + tile_pieces(b, tiles[k - 1])
    }
}

/// The pieces on the board as tokens, tile by tile, the tiles of the
/// player to move first.
pub open spec fn placed_pieces(b: Board) -> Seq<PlacedPiece> {
    let tiles = mover_first_tiles(b);
    placed_fold(b, tiles, tiles.len() as int)
}

proof fn lemma_piece_token(p: Piece)
    requires
        p.spec_is_some(),
        numbered(p),
    ensures
        valid_num(p.spec_ptype(), p.spec_num() as int),
        piece_token(p) < NUM_TOKENS,
{
    match p.spec_ptype() {
        PieceType::Queen => {},
        PieceType::Grasshopper => {},
        PieceType::Spider => {},
        PieceType::Ant => {},
        PieceType::Beetle => {},
        PieceType::Mosquito => {},
        PieceType::Ladybug => {},
        PieceType::Pillbug => {},
    }
}

/// The token of a piece on the board.
fn token_of(p: Piece) -> (r: usize)
    requires
        p.spec_is_some(),
        numbered(p),
    ensures
        r == piece_token(p),
        r < NUM_TOKENS,
{
    proof {
        lemma_piece_token(p);
    }
    piece_to_token_idx(p.color(), p.ptype(), p.num())
}

impl Board {
    /// Appends the pieces of `t` as tokens (see `tile_pieces`).
    fn push_tile_pieces(&self, t: Tile, placed: &mut Vec<PlacedPiece>)
        requires
            self.wf(),
            t < GRID_SIZE,
            self.world@[t as int].spec_is_some(),
        ensures
            final(placed)@ == old(placed)@ + tile_pieces(*self, t),
    {
        let h = self.height(t) as usize;
        let ghost p0 = placed@;
        let ghost us0 = if h > 1 {
            under_at(self.underworld@, t as int)
        } else {
            Seq::<Piece>::empty()
        };
        let ghost unders = Seq::new(us0.len(), |i: int| PlacedPiece { token: piece_token(us0[i]), tile: t, level: i as usize, top: false });
        if h > 1 {
            let us = self.underworld_at(t);
            proof {
                lemma_under_at_valid(self.underworld@, t as int);
            }
            let mut i: usize = 0;
            while i < us.len()
                invariant
                    0 <= i <= us@.len(),
                    us@ == us0,
                    forall|j: int| 0 <= j < us@.len() ==> (#[trigger] us@[j]).spec_is_some() && numbered(us@[j]),
                    unders == Seq::new(us0.len(), |i: int| PlacedPiece { token: piece_token(us0[i]), tile: t, level: i as usize, top: false }),
                    placed@ == p0 + unders.take(i as int),
                decreases us@.len() - i,
            {
                let tok = token_of(us[i]);
                placed.push(PlacedPiece { token: tok, tile: t, level: i, top: false });
                i += 1;
                assert(placed@ =~= p0 + unders.take(i as int));
            }
            assert(unders.take(us@.len() as int) =~= unders);
        } else {
            assert(placed@ =~= p0 + unders);
        }
        let top = self.tile(t);
        assert(numbered(top));
        let tok = token_of(top);
        placed.push(PlacedPiece { token: tok, tile: t, level: h - 1, top: true });
        assert(placed@ =~= p0 + tile_pieces(*self, t));
    }
}

/// The sum of the x (`axis` 1) or y (`axis` 0) locations of the first `n`
/// pieces of `placed`.
pub open spec fn loc_sum(placed: Seq<PlacedPiece>, n: int, axis: int) -> int
    decreases n,
{
    if n <= 0 {
        0
    } else {
        let loc = spec_tile_to_loc(placed[n - 1].tile as int);
        loc_sum(placed, n - 1, axis) + if axis == 0 {
            loc.0
        } else {
            loc.1
        }
    }
}

/// The point that locations are taken relative to, as the sums of x and y
/// over a count: the middle of the queens on the board, else the mean of
/// all pieces, the origin when there are none.
pub open spec fn center_spec(b: Board, placed: Seq<PlacedPiece>) -> Seq<i64> {
    match (b.queens[0], b.queens[1]) {
        (Some(q1), Some(q2)) => seq![
            (spec_tile_to_loc(q1 as int).1 + spec_tile_to_loc(q2 as int).1) as i64,
            (spec_tile_to_loc(q1 as int).0 + spec_tile_to_loc(q2 as int).0) as i64,
            2i64,
        ],
        (Some(q), None) => seq![spec_tile_to_loc(q as int).1 as i64, spec_tile_to_loc(q as int).0 as i64, 1i64],
        (None, Some(q)) => seq![spec_tile_to_loc(q as int).1 as i64, spec_tile_to_loc(q as int).0 as i64, 1i64],
        (None, None) => if placed.len() > 0 {
            seq![
                loc_sum(placed, placed.len() as int, 1) as i64,
                loc_sum(placed, placed.len() as int, 0) as i64,
                placed.len() as i64,
            ]
        } else {
            seq![0i64, 0i64, 1i64]
        },
    }
}

/// A piece of `placed` is on a tile with a piece, has a token, and lies
/// below level 255.
pub open spec fn placed_ok(b: Board, placed: Seq<PlacedPiece>) -> bool {
    forall|k: int|
        0 <= k < placed.len() ==> (#[trigger] placed[k]).token < NUM_TOKENS && placed[k].tile < GRID_SIZE
            && b.world@[placed[k].tile as int].spec_is_some() && placed[k].level < 255
}

proof fn lemma_loc_bound(t: int)
    requires
        0 <= t < GRID_SIZE,
    ensures
        -16 <= spec_tile_to_loc(t).0 < 16,
        -16 <= spec_tile_to_loc(t).1 < 16,
{
}

proof fn lemma_loc_sum_bound(placed: Seq<PlacedPiece>, n: int, axis: int)
    requires
        0 <= n <= placed.len(),
        forall|k: int| 0 <= k < placed.len() ==> (#[trigger] placed[k]).tile < GRID_SIZE,
    ensures
        -16 * n <= loc_sum(placed, n, axis) <= 16 * n,
    decreases n,
{
    if n > 0 {
        lemma_loc_sum_bound(placed, n - 1, axis);
        lemma_loc_bound(placed[n - 1].tile as int);
    }
}

impl Board {
    /// The pieces on the board as tokens (see `placed_pieces`).
    fn collect_placed(&self) -> (r: Vec<PlacedPiece>)
        requires
            self.wf(),
            few_pieces(*self),
        ensures
            r@ == placed_pieces(*self),
            r@.len() <= 255 * 254,
            placed_ok(*self, r@),
    {
        let tiles = self.all_occupied_tiles();
        assert(tiles@ == mover_first_tiles(*self));
        proof {
            let c = color_index(color_of_turn(self.turn_num as int));
            let o = color_index(spec_other(color_of_turn(self.turn_num as int)));
            assert forall|j: int| 0 <= j < tiles@.len() implies (#[trigger] tiles@[j]) < GRID_SIZE
                && self.world@[tiles@[j] as int].spec_is_some() by {
                let n0 = self.occupied_tiles[c].occupants@.len();
                if j < n0 {
                    assert(tiles@[j] == self.occupied_tiles[c].occupants@[j]);
                    assert(self.occupied_tiles[c].occupants@.contains(tiles@[j]));
                } else {
                    assert(tiles@[j] == self.occupied_tiles[o].occupants@[j - n0]);
                    assert(self.occupied_tiles[o].occupants@.contains(tiles@[j]));
                }
            }
        }
        let mut placed: Vec<PlacedPiece> = Vec::new();
        let mut k: usize = 0;
        while k < tiles.len()
            invariant
                0 <= k <= tiles@.len(),
                tiles@.len() < 254,
                self.wf(),
                tiles@ == mover_first_tiles(*self),
                forall|j: int| 0 <= j < tiles@.len() ==> (#[trigger] tiles@[j]) < GRID_SIZE
                    && self.world@[tiles@[j] as int].spec_is_some(),
                placed@ == placed_fold(*self, tiles@, k as int),
                placed@.len() <= 255 * k,
                placed_ok(*self, placed@),
            decreases tiles@.len() - k,
        {
            let t = tiles[k];
            let ghost p0 = placed@;
            self.push_tile_pieces(t, &mut placed);
            proof {
                let tp = tile_pieces(*self, t);
                let h = self@.stacks[t as int].len();
                assert(self.world@[t as int].spec_is_some());
                assert(self@.stacks[t as int] == under_at(self.underworld@, t as int).push(self.world@[t as int]));
                assert(self.height@[t as int] < 255);
                assert(tp.len() <= 255);
                assert forall|q: int| 0 <= q < placed@.len() implies (#[trigger] placed@[q]).token < NUM_TOKENS
                    && placed@[q].tile < GRID_SIZE && self.world@[placed@[q].tile as int].spec_is_some()
                    && placed@[q].level < 255 by {
                    if q >= p0.len() {
                        let i = q - p0.len();
                        assert(placed@[q] == tp[i]);
                        if i < tp.len() - 1 {
                            let us = under_at(self.underworld@, t as int);
                            lemma_under_at_valid(self.underworld@, t as int);
                            lemma_piece_token(us[i]);
                        } else {
                            assert(numbered(self.world@[t as int]));
                            lemma_piece_token(self.world@[t as int]);
                        }
                    }
                }
            }
            k += 1;
        }
        placed
    }

    /// The sums of the x and y locations of `placed`.
    fn loc_sums(placed: &Vec<PlacedPiece>) -> (r: (i64, i64))
        requires
            placed@.len() <= 255 * 254,
            forall|k: int| 0 <= k < placed@.len() ==> (#[trigger] placed@[k]).tile < GRID_SIZE,
        ensures
            r.0 == loc_sum(placed@, placed@.len() as int, 1),
            r.1 == loc_sum(placed@, placed@.len() as int, 0),
    {
        let mut sx: i64 = 0;
        let mut sy: i64 = 0;
        let mut i: usize = 0;
        while i < placed.len()
            invariant
                0 <= i <= placed@.len(),
                placed@.len() <= 255 * 254,
                forall|k: int| 0 <= k < placed@.len() ==> (#[trigger] placed@[k]).tile < GRID_SIZE,
                sx == loc_sum(placed@, i as int, 1),
                sy == loc_sum(placed@, i as int, 0),
            decreases placed@.len() - i,
        {
            proof {
                lemma_loc_sum_bound(placed@, i as int, 0);
                lemma_loc_sum_bound(placed@, i as int, 1);
                lemma_loc_bound(placed@[i as int].tile as int);
            }
            let (y, x) = tile_to_loc(placed[i].tile);
            sx = sx + x as i64;
            sy = sy + y as i64;
            i += 1;
        }
        (sx, sy)
    }

    /// The point locations are taken relative to (see `center_spec`).
    fn token_center(&self, placed: &Vec<PlacedPiece>) -> (r: [i64; 3])
        requires
            self.wf(),
            placed@.len() <= 255 * 254,
            forall|k: int| 0 <= k < placed@.len() ==> (#[trigger] placed@[k]).tile < GRID_SIZE,
        ensures
            r@ == center_spec(*self, placed@),
    {
        let r = match (self.queens[0], self.queens[1]) {
            (Some(q1), Some(q2)) => {
                assert(self.queens[0] matches Some(q) ==> q < GRID_SIZE);
                assert(self.queens[1] matches Some(q) ==> q < GRID_SIZE);
                let (y1, x1) = tile_to_loc(q1);
                let (y2, x2) = tile_to_loc(q2);
                [x1 as i64 + x2 as i64, y1 as i64 + y2 as i64, 2]
            },
            (Some(q), None) => {
                assert(self.queens[0] matches Some(q) ==> q < GRID_SIZE);
                let (y, x) = tile_to_loc(q);
                [x as i64, y as i64, 1]
            },
            (None, Some(q)) => {
                assert(self.queens[1] matches Some(q) ==> q < GRID_SIZE);
                let (y, x) = tile_to_loc(q);
                [x as i64, y as i64, 1]
            },
            (None, None) => {
                if placed.len() > 0 {
                    let (sx, sy) = Self::loc_sums(placed);
                    [sx, sy, placed.len() as i64]
                } else {
                    [0, 0, 1]
                }
            },
        };
        assert(r@ =~= center_spec(*self, placed@));
        r
    }
}

/// The moves counted for a piece: those from its tile when it tops its
/// stack and its player's queen is on the board, else none.
pub open spec fn piece_moves(b: Board, p: PlacedPiece, wm: Seq<u16>, bm: Seq<u16>) -> int {
    let black = p.token >= TOKENS_PER_SIDE;
    let queen_placed = if black {
        b.queens[1] is Some
    } else {
        b.queens[0] is Some
    };
    if !p.top || !queen_placed {
        0
    } else if black {
        bm[p.tile as int] as int
    } else {
        wm[p.tile as int] as int
    }
}

/// The features of a piece on the board: on the board, x, y, level,
/// movable, moves, pinned (alone on a tile that is a cut vertex), buried.
pub open spec fn placed_row(b: Board, p: PlacedPiece, wm: Seq<u16>, bm: Seq<u16>, cut: Set<Tile>) -> Seq<i128> {
    let m = piece_moves(b, p, wm, bm);
    let loc = spec_tile_to_loc(p.tile as int);
    let pinned = p.level == 0 && cut.contains(p.tile) && b@.stacks[p.tile as int].len() == 1;
    seq![
        1i128,
        loc.1 as i128,
        loc.0 as i128,
        p.level as i128,
        if m > 0 { 1i128 } else { 0i128 },
        m as i128,
        if pinned { 1i128 } else { 0i128 },
        if p.top { 0i128 } else { 1i128 },
    ]
}

/// The bug type of the token at `local` within a player's tokens.
pub open spec fn token_type(local: int) -> PieceType {
    if local < 1 {
        PieceType::Queen
    } else if local < 4 {
        PieceType::Grasshopper
    } else if local < 6 {
        PieceType::Spider
    } else if local < 9 {
        PieceType::Ant
    } else if local < 11 {
        PieceType::Beetle
    } else if local < 12 {
        PieceType::Mosquito
    } else if local < 13 {
        PieceType::Ladybug
    } else {
        PieceType::Pillbug
    }
}

/// The features of a token in hand: it can be placed when its player has
/// its type in hand and the queen is not required of another type; then it
/// has as many moves as its player has placements.
pub open spec fn hand_row(b: Board, idx: int, wp: int, bp: int, wq: bool, bq: bool) -> Seq<i128> {
    let c: int = if idx < TOKENS_PER_SIDE {
        0
    } else {
        1
    };
    let pct = token_type(idx % 14);
    let count = if c == 0 {
        wp
    } else {
        bp
    };
    let required = if c == 0 {
        wq
    } else {
        bq
    };
    let can = b.placeable[c][pct_index(pct)] > 0 && !(required && pct != PieceType::Queen);
    seq![
        0i128,
        0i128,
        0i128,
        0i128,
        if can && count > 0 { 1i128 } else { 0i128 },
        if can { count as i128 } else { 0i128 },
        0i128,
        0i128,
    ]
}

/// The last of the first `n` pieces of `placed` with token `idx`, -1 when
/// there is none.
pub open spec fn last_placed(placed: Seq<PlacedPiece>, idx: int, n: int) -> int
    decreases n,
{
    if n <= 0 {
        -1
    } else if placed[n - 1].token == idx {
        n - 1
    } else {
        last_placed(placed, idx, n - 1)
    }
}

/// The features of every token: those of its last piece on the board, or
/// those of a token in hand.
pub open spec fn token_rows(
    b: Board,
    placed: Seq<PlacedPiece>,
    wm: Seq<u16>,
    bm: Seq<u16>,
    cut: Set<Tile>,
    wp: int,
    bp: int,
    wq: bool,
    bq: bool,
) -> Seq<Seq<i128>> {
    Seq::new(
        NUM_TOKENS as nat,
        |idx: int|
            {
                let k = last_placed(placed, idx, placed.len() as int);
                if k >= 0 {
                    placed_row(b, placed[k], wm, bm, cut)
                } else {
                    hand_row(b, idx, wp, bp, wq, bq)
                }
            },
    )
}

/// The rows of a feature table.
pub open spec fn feature_rows(f: [[i128; 8]; 28]) -> Seq<Seq<i128>> {
    f@.map_values(|r: [i128; 8]| r@)
}

proof fn lemma_last_placed(placed: Seq<PlacedPiece>, idx: int, n: int)
    requires
        n >= 0,
    ensures
        -1 <= last_placed(placed, idx, n) < n,
        last_placed(placed, idx, n) >= 0 ==> placed[last_placed(placed, idx, n)].token == idx,
    decreases n,
{
    if n > 0 {
        lemma_last_placed(placed, idx, n - 1);
    }
}

proof fn lemma_token_type(c: Color, p: PieceType, n: int, idx: int)
    requires
        valid_num(p, n),
        token_spec(c, p, n) == idx,
    ensures
        p == token_type(idx % 14),
        color_index(c) == (if idx < TOKENS_PER_SIDE { 0int } else { 1int }),
{
    let local = pct_offset(p) + n - 1;
    assert(0 <= local < 14);
    assert(idx == 14 * color_index(c) + local);
    if color_index(c) == 0 {
        assert(idx % 14 == local);
    } else {
        assert(idx % 14 == local);
    }
}

impl Board {
    /// The features of a piece on the board (see `placed_row`).
    fn placed_row_of(&self, p: PlacedPiece, wm: &[u16; 1024], bm: &[u16; 1024], cut: &TileSet) -> (r: [i128; 8])
        requires
            self.wf(),
            p.tile < GRID_SIZE,
        ensures
            r@ == placed_row(*self, p, wm@, bm@, cut.members()),
    {
        let black = p.token >= TOKENS_PER_SIDE;
        let queen_placed = if black {
            self.queens[1].is_some()
        } else {
            self.queens[0].is_some()
        };
        let m: i128 = if !p.top || !queen_placed {
            0
        } else if black {
            bm[p.tile as usize] as i128
        } else {
            wm[p.tile as usize] as i128
        };
        let in_cut = cut.get(p.tile);
        assert(in_cut == cut.members().contains(p.tile)) by {
            assert(cut.members().contains(p.tile) == cut.has(p.tile as int));
        }
        let pinned = p.level == 0 && in_cut && self.height(p.tile) == 1;
        let (y, x) = tile_to_loc(p.tile);
        let r = [
            1i128,
            x as i128,
            y as i128,
            p.level as i128,
            if m > 0 { 1i128 } else { 0i128 },
            m,
            if pinned { 1i128 } else { 0i128 },
            if p.top { 0i128 } else { 1i128 },
        ];
        assert(r@ =~= placed_row(*self, p, wm@, bm@, cut.members()));
        r
    }

    /// The features of token `idx` in hand (see `hand_row`).
    fn hand_row_of(&self, idx: usize, wp: usize, bp: usize, wq: bool, bq: bool) -> (r: [i128; 8])
        requires
            idx < NUM_TOKENS,
        ensures
            r@ == hand_row(*self, idx as int, wp as int, bp as int, wq, bq),
    {
        let (color, pct, num) = token_idx_to_piece(idx);
        proof {
            lemma_token_type(color, pct, num as int, idx as int);
        }
        let ci = color.index();
        let count = if ci == 0 {
            wp
        } else {
            bp
        };
        let required = if ci == 0 {
            wq
        } else {
            bq
        };
        let can = self.placeable[ci][pct.index()] > 0 && !(required && pct != PieceType::Queen);
        let r = [
            0i128,
            0i128,
            0i128,
            0i128,
            if can && count > 0 { 1i128 } else { 0i128 },
            if can { count as i128 } else { 0i128 },
            0i128,
            0i128,
        ];
        assert(r@ =~= hand_row(*self, idx as int, wp as int, bp as int, wq, bq));
        r
    }

    /// The features of every token (see `token_rows`).
    fn token_features(
        &self,
        placed: &Vec<PlacedPiece>,
        wm: &[u16; 1024],
        bm: &[u16; 1024],
        cut: &TileSet,
        wp: usize,
        bp: usize,
        wq: bool,
        bq: bool,
    ) -> (r: [[i128; 8]; 28])
        requires
            self.wf(),
            placed_ok(*self, placed@),
        ensures
            feature_rows(r) == token_rows(*self, placed@, wm@, bm@, cut.members(), wp as int, bp as int, wq, bq),
    {
        let mut features = [[0i128; 8]; 28];
        let mut is_placed = [false; 28];
        let mut i: usize = 0;
        while i < placed.len()
            invariant
                0 <= i <= placed@.len(),
                self.wf(),
                placed_ok(*self, placed@),
                forall|idx: int| 0 <= idx < 28 ==> #[trigger] is_placed@[idx] == (last_placed(placed@, idx, i as int) >= 0),
                forall|idx: int| 0 <= idx < 28 && is_placed@[idx] ==> #[trigger] features@[idx]@ == placed_row(
                    *self,
                    placed@[last_placed(placed@, idx, i as int)],
                    wm@,
                    bm@,
                    cut.members(),
                ),
            decreases placed@.len() - i,
        {
            let p = placed[i];
            let row = self.placed_row_of(p, wm, bm, cut);
            features[p.token] = row;
            is_placed[p.token] = true;
            i += 1;
        }
        let mut idx: usize = 0;
        while idx < 28
            invariant
                0 <= idx <= 28,
                forall|j: int| 0 <= j < 28 ==> #[trigger] is_placed@[j] == (last_placed(placed@, j, placed@.len() as int) >= 0),
                forall|j: int| 0 <= j < 28 && is_placed@[j] ==> #[trigger] features@[j]@ == placed_row(
                    *self,
                    placed@[last_placed(placed@, j, placed@.len() as int)],
                    wm@,
                    bm@,
                    cut.members(),
                ),
                forall|j: int| 0 <= j < idx && !is_placed@[j] ==> #[trigger] features@[j]@ == hand_row(
                    *self,
                    j,
                    wp as int,
                    bp as int,
                    wq,
                    bq,
                ),
            decreases 28 - idx,
        {
            if !is_placed[idx] {
                let row = self.hand_row_of(idx, wp, bp, wq, bq);
                features[idx] = row;
            }
            idx += 1;
        }
        assert(feature_rows(features) =~= token_rows(*self, placed@, wm@, bm@, cut.members(), wp as int, bp as int, wq, bq));
        features
    }
}

/// One plus the first direction from the `d`-th on that steps from tile
/// `a` to tile `c`; 0 when none does.
pub open spec fn dir_code(a: Tile, c: Tile, d: int) -> u8
    decreases 6 - d,
{
    if d < 0 || d >= 6 {
        0
    } else if step(a as int, dir_at(d)) == c as int {
        (d + 1) as u8
    } else {
        dir_code(a, c, d + 1)
    }
}

/// The edge from piece `pi` to piece `pj`: up (7) or down (8) the stack on
/// one tile, the direction code between two top pieces, 0 for none.
pub open spec fn pair_edge(pi: PlacedPiece, pj: PlacedPiece) -> u8 {
    if pi.tile == pj.tile {
        if pj.level == pi.level + 1 {
            7
        } else if pi.level == pj.level + 1 {
            8
        } else {
            0
        }
    } else if pi.top && pj.top {
        dir_code(pi.tile, pj.tile, 0)
    } else {
        0
    }
}

/// The edge from token `a` to token `c` once the pairs of distinct pieces
/// before `(i, j)`, row by row, have been seen: the edge of the last such
/// pair with these tokens that has one; else a loop (9) on each token on
/// the board, 0 elsewhere.
pub open spec fn adj_upto(placed: Seq<PlacedPiece>, a: int, c: int, i: int, j: int) -> u8
    decreases i, j,
{
    if i < 0 || j < 0 || (i == 0 && j == 0) {
        if a == c && last_placed(placed, a, placed.len() as int) >= 0 {
            9
        } else {
            0
        }
    } else if j == 0 {
        adj_upto(placed, a, c, i - 1, placed.len() as int)
    } else {
        let e = pair_edge(placed[i], placed[j - 1]);
        if i != j - 1 && placed[i].token == a && placed[j - 1].token == c && e != 0 {
            e
        } else {
            adj_upto(placed, a, c, i, j - 1)
        }
    }
}

/// The edges between all tokens.
pub open spec fn token_adj(placed: Seq<PlacedPiece>) -> Seq<Seq<u8>> {
    Seq::new(
        NUM_TOKENS as nat,
        |a: int| Seq::new(NUM_TOKENS as nat, |c: int| adj_upto(placed, a, c, placed.len() as int, 0)),
    )
}

/// Between two pieces stacked on one tile, one level apart, the edge from
/// the lower to the upper is up the stack (7) and from the upper to the
/// lower is down the stack (8).
pub proof fn law_stacked_pieces_edges(lower: PlacedPiece, upper: PlacedPiece)
    requires
        lower.tile == upper.tile,
        upper.level == lower.level + 1,
    ensures
        pair_edge(lower, upper) == 7,
        pair_edge(upper, lower) == 8,
{
}

/// Scanning the pairs from `(i, j)` down finds the edge of the pair `(x, y)`
/// when that pair is still to be scanned, its edge is not 0, and no other
/// piece has the token of `placed[x]` or of `placed[y]`.
proof fn lemma_adj_upto_unique(placed: Seq<PlacedPiece>, x: int, y: int, i: int, j: int)
    requires
        0 <= x < placed.len(),
        0 <= y < placed.len(),
        x != y,
        forall|k: int| 0 <= k < placed.len() && placed[k].token == placed[x].token ==> k == x,
        forall|k: int| 0 <= k < placed.len() && placed[k].token == placed[y].token ==> k == y,
        pair_edge(placed[x], placed[y]) != 0,
        0 <= i <= placed.len(),
        0 <= j <= placed.len(),
        i == placed.len() ==> j == 0,
        x < i || (x == i && y < j),
    ensures
        adj_upto(placed, placed[x].token as int, placed[y].token as int, i, j) == pair_edge(placed[x], placed[y]),
    decreases i, j,
{
    if j == 0 {
        lemma_adj_upto_unique(placed, x, y, i - 1, placed.len() as int);
    } else if !(x == i && y == j - 1) {
        lemma_adj_upto_unique(placed, x, y, i, j - 1);
    }
}

/// In the edge table of a list of pieces, for two pieces stacked one
/// level apart on one tile, each the only piece with its token, the edge
/// from the lower piece's token to the upper's is up the stack (7) and the
/// edge back is down the stack (8).
pub proof fn law_token_edges_of_stacked_pieces(placed: Seq<PlacedPiece>, lo: int, up: int)
    requires
        0 <= lo < placed.len(),
        0 <= up < placed.len(),
        lo != up,
        placed[lo].token < NUM_TOKENS,
        placed[up].token < NUM_TOKENS,
        forall|k: int| 0 <= k < placed.len() && placed[k].token == placed[lo].token ==> k == lo,
        forall|k: int| 0 <= k < placed.len() && placed[k].token == placed[up].token ==> k == up,
        placed[lo].tile == placed[up].tile,
        placed[up].level == placed[lo].level + 1,
    ensures
        token_adj(placed)[placed[lo].token as int][placed[up].token as int] == 7,
        token_adj(placed)[placed[up].token as int][placed[lo].token as int] == 8,
{
    lemma_adj_upto_unique(placed, lo, up, placed.len() as int, 0);
    lemma_adj_upto_unique(placed, up, lo, placed.len() as int, 0);
}

/// The rows of an edge table.
pub open spec fn adj_rows(m: [[u8; 28]; 28]) -> Seq<Seq<u8>> {
    m@.map_values(|r: [u8; 28]| r@)
}

/// The edge from one piece to another (see `pair_edge`).
fn pair_edge_of(pi: PlacedPiece, pj: PlacedPiece) -> (r: u8)
    requires
        pi.tile < GRID_SIZE,
        pi.level < 255,
        pj.level < 255,
    ensures
        r == pair_edge(pi, pj),
{
    if pi.tile == pj.tile {
        if pj.level == pi.level + 1 {
            7
        } else if pi.level == pj.level + 1 {
            8
        } else {
            0
        }
    } else if pi.top && pj.top {
        let around = adjacent(pi.tile);
        let mut d: usize = 0;
        while d < 6
            invariant
                0 <= d <= 6,
                pi.tile != pj.tile,
                pi.top && pj.top,
                forall|q: int| 0 <= q < 6 ==> around@[q] == #[trigger] step(pi.tile as int, dir_at(q)),
                dir_code(pi.tile, pj.tile, 0) == dir_code(pi.tile, pj.tile, d as int),
            decreases 6 - d,
        {
            assert(around@[d as int] == step(pi.tile as int, dir_at(d as int)));
            if around[d] == pj.tile {
                assert(dir_code(pi.tile, pj.tile, d as int) == (d + 1) as u8);
                return (d + 1) as u8;
            }
            d += 1;
        }
        0
    } else {
        0
    }
}

/// The edges between the tokens of `placed` (see `token_adj`).
fn token_edges(placed: &Vec<PlacedPiece>) -> (r: [[u8; 28]; 28])
    requires
        forall|k: int|
            0 <= k < placed@.len() ==> (#[trigger] placed@[k]).token < NUM_TOKENS && placed@[k].tile < GRID_SIZE
                && placed@[k].level < 255,
    ensures
        adj_rows(r) == token_adj(placed@),
{
    let n = placed.len();
    let mut adj = [[0u8; 28]; 28];
    let mut k: usize = 0;
    while k < n
        invariant
            0 <= k <= n,
            n == placed@.len(),
            forall|q: int| 0 <= q < placed@.len() ==> (#[trigger] placed@[q]).token < NUM_TOKENS,
            forall|a: int, c: int|
                0 <= a < 28 && 0 <= c < 28 ==> #[trigger] adj@[a]@[c] == (if a == c && last_placed(placed@, a, k as int) >= 0 {
                    9u8
                } else {
                    0u8
                }),
        decreases n - k,
    {
        let t = placed[k].token;
        let mut row = adj[t];
        row[t] = 9;
        adj[t] = row;
        k += 1;
    }
    let mut i: usize = 0;
    while i < n
        invariant
            0 <= i <= n,
            n == placed@.len(),
            forall|q: int|
                0 <= q < placed@.len() ==> (#[trigger] placed@[q]).token < NUM_TOKENS && placed@[q].tile < GRID_SIZE
                    && placed@[q].level < 255,
            forall|a: int, c: int|
                0 <= a < 28 && 0 <= c < 28 ==> #[trigger] adj@[a]@[c] == adj_upto(placed@, a, c, i as int, 0),
        decreases n - i,
    {
        let mut j: usize = 0;
        while j < n
            invariant
                0 <= i < n,
                0 <= j <= n,
                n == placed@.len(),
                forall|q: int|
                    0 <= q < placed@.len() ==> (#[trigger] placed@[q]).token < NUM_TOKENS && placed@[q].tile < GRID_SIZE
                        && placed@[q].level < 255,
                forall|a: int, c: int|
                    0 <= a < 28 && 0 <= c < 28 ==> #[trigger] adj@[a]@[c] == adj_upto(placed@, a, c, i as int, j as int),
            decreases n - j,
        {
            if i != j {
                let pi = placed[i];
                let pj = placed[j];
                let e = pair_edge_of(pi, pj);
                if e != 0 {
                    let mut row = adj[pi.token];
                    row[pj.token] = e;
                    adj[pi.token] = row;
                }
            }
            j += 1;
        }
        i += 1;
    }
    assert(adj_rows(adj) =~= token_adj(placed@)) by {
        assert forall|a: int| 0 <= a < 28 implies adj_rows(adj)[a] =~= #[trigger] token_adj(placed@)[a] by {
            assert forall|c: int| 0 <= c < 28 implies adj_rows(adj)[a][c] == token_adj(placed@)[a][c] by {
                assert(adj@[a]@[c] == adj_upto(placed@, a, c, n as int, 0));
            }
        }
    }
    adj
}

/// What the player not to move could do if it were to move: its
/// movements by starting tile, its number of placements, and whether it
/// must place its queen.
pub struct OtherMoves {
    pub moves_by_tile: [u16; 1024],
    pub place_count: usize,
    pub queen_required: bool,
}

/// A position as tokens, with exact integer features. Row `t` of
/// `features` describes token `t`: on the board (1) or in hand (0), its x
/// and y location (0 in hand), its level, whether it can move or be placed,
/// how many moves or placements it has, whether it is pinned, whether it is
/// buried. Locations are absolute; taken relative to the point
/// `(center[0] / center[2], center[1] / center[2])` they are centered on
/// the queens. `adj[a][b]` is the edge from token `a` to token `b`, coded
/// as in `EdgeType`.
pub struct TokenGraph {
    pub features: [[i128; 8]; 28],
    pub adj: [[u8; 28]; 28],
    pub center: [i64; 3],
}

impl TokenGraph {
    /// A graph with every token in hand, unable to move, and no edges.
    pub fn new() -> (r: TokenGraph)
        ensures
            forall|t: int, f: int| 0 <= t < 28 && 0 <= f < 8 ==> #[trigger] r.features@[t]@[f] == 0,
            forall|a: int, c: int| 0 <= a < 28 && 0 <= c < 28 ==> #[trigger] r.adj@[a]@[c] == 0,
            r.center@ == seq![0i64, 0i64, 1i64],
    {
        let r = TokenGraph { features: [[0i128; 8]; 28], adj: [[0u8; 28]; 28], center: [0, 0, 1] };
        assert(r.center@ =~= seq![0i64, 0i64, 1i64]);
        r
    }
}

/// The token graph of `b` when the player to move has the movements
/// `my_m` by tile and `my_p` placements, and the other player `om`, `op`
/// and `oq` (see `OtherMoves`): the rows of `token_rows` with the moves of
/// white and of black, the edges of `token_adj`, the center of
/// `center_spec`.
pub open spec fn token_graph_spec(b: Board, my_m: Seq<u16>, my_p: int, om: Seq<u16>, op: int, oq: bool) -> (
    Seq<Seq<i128>>,
    Seq<Seq<u8>>,
    Seq<i64>,
) {
    let placed = placed_pieces(b);
    let mq = queen_required_spec(b);
    let rows = if color_of_turn(b.turn_num as int) == Color::White {
        token_rows(b, placed, my_m, om, cut_spec(b), my_p, op, mq, oq)
    } else {
        token_rows(b, placed, om, my_m, cut_spec(b), op, my_p, oq, mq)
    };
    (rows, token_adj(placed), center_spec(b, placed))
}

/// The spec values of a token graph.
pub open spec fn graph_view(g: TokenGraph) -> (Seq<Seq<i128>>, Seq<Seq<u8>>, Seq<i64>) {
    (feature_rows(g.features), adj_rows(g.adj), g.center@)
}

/// The number of placements among the first `n` of `moves`.
pub open spec fn place_count(moves: Seq<Action>, n: int) -> int
    decreases n,
{
    if n <= 0 {
        0
    } else {
        place_count(moves, n - 1) + match moves[n - 1].spec_kind() {
            ActionKind::Place(_, _) => 1int,
            _ => 0int,
        }
    }
}

proof fn lemma_place_count_bound(moves: Seq<Action>, n: int)
    requires
        0 <= n,
    ensures
        0 <= place_count(moves, n) <= n,
    decreases n,
{
    if n > 0 {
        lemma_place_count_bound(moves, n - 1);
    }
}

/// The number of placements in `moves`.
fn count_placements(moves: &Vec<Action>) -> (r: usize)
    ensures
        r == place_count(moves@, moves@.len() as int),
{
    let mut n: usize = 0;
    let mut i: usize = 0;
    while i < moves.len()
        invariant
            0 <= i <= moves@.len(),
            n == place_count(moves@, i as int),
            n <= i,
        decreases moves@.len() - i,
    {
        match moves[i].kind() {
            ActionKind::Place(_, _) => {
                n += 1;
            },
            _ => {},
        }
        i += 1;
    }
    n
}

impl Board {
    /// The token graph of the position with the given moves (see
    /// `token_graph_spec`).
    pub fn get_token_graph_with_moves(
        &mut self,
        my_moves_by_tile: [u16; 1024],
        my_place_count: usize,
        other: &OtherMoves,
    ) -> (r: TokenGraph)
        requires
            old(self).wf(),
            few_pieces(*old(self)),
        ensures
            *final(self) == *old(self),
            graph_view(r) == token_graph_spec(
                *old(self),
                my_moves_by_tile@,
                my_place_count as int,
                other.moves_by_tile@,
                other.place_count as int,
                other.queen_required,
            ),
    {
        let cut = self.find_cut_vertexes();
        let mq = self.queen_required();
        let (wm, bm, wp, bp, wq, bq) = match self.color() {
            Color::White => (
                my_moves_by_tile,
                other.moves_by_tile,
                my_place_count,
                other.place_count,
                mq,
                other.queen_required,
            ),
            Color::Black => (
                other.moves_by_tile,
                my_moves_by_tile,
                other.place_count,
                my_place_count,
                other.queen_required,
                mq,
            ),
        };
        let placed = self.collect_placed();
        let center = self.token_center(&placed);
        let features = self.token_features(&placed, &wm, &bm, &cut, wp, bp, wq, bq);
        let adj = token_edges(&placed);
        TokenGraph { features, adj, center }
    }

    /// The token graph of the position with `my_moves` the moves of the
    /// player to move (see `token_graph_spec`).
    pub fn get_token_graph_fast(&mut self, my_moves: &Vec<Action>, other: &OtherMoves) -> (r: TokenGraph)
        requires
            old(self).wf(),
            few_pieces(*old(self)),
            forall|i: int| 0 <= i < my_moves@.len() ==> (#[trigger] my_moves@[i]).wf(),
        ensures
            *final(self) == *old(self),
            graph_view(r) == token_graph_spec(
                *old(self),
                counts_of(my_moves@),
                place_count(my_moves@, my_moves@.len() as int),
                other.moves_by_tile@,
                other.place_count as int,
                other.queen_required,
            ),
    {
        let by_tile = movements_by_tile(my_moves);
        let places = count_placements(my_moves);
        self.get_token_graph_with_moves(by_tile, places, other)
    }

    /// The number of placements of the player to move.
    pub fn generate_placements_n(&self) -> (r: usize)
        requires
            self.wf(),
            few_pieces(*self),
        ensures
            r == place_count(moves_spec(*self), moves_spec(*self).len() as int),
    {
        let moves = self.generate_moves();
        count_placements(&moves)
    }

    /// What the other player could do if it were to move (see
    /// `OtherMoves`).
    pub fn other_moves(&mut self) -> (r: OtherMoves)
        requires
            old(self).wf(),
            few_pieces(*old(self)),
            old(self).turn_num < usize::MAX,
        ensures
            *final(self) == *old(self),
            r.moves_by_tile@ == counts_of(moves_spec(turned(*old(self)))),
            r.place_count == place_count(moves_spec(turned(*old(self))), moves_spec(turned(*old(self))).len() as int),
            r.queen_required == queen_required_spec(turned(*old(self))),
    {
        self.turn_num += 1;
        assert(*self == turned(*old(self)));
        let moves_by_tile = self.generate_movements_by_tile();
        let place_count = self.generate_placements_n();
        let queen_required = self.queen_required();
        self.turn_num -= 1;
        OtherMoves { moves_by_tile, place_count, queen_required }
    }

    /// The token graph of the position with the legal moves of both players
    /// (see `token_graph_spec`).
    pub fn get_token_graph(&mut self) -> (r: TokenGraph)
        requires
            old(self).wf(),
            few_pieces(*old(self)),
            old(self).turn_num < usize::MAX,
        ensures
            *final(self) == *old(self),
            graph_view(r) == token_graph_spec(
                *old(self),
                counts_of(moves_spec(*old(self))),
                place_count(moves_spec(*old(self)), moves_spec(*old(self)).len() as int),
                counts_of(moves_spec(turned(*old(self)))),
                place_count(moves_spec(turned(*old(self))), moves_spec(turned(*old(self))).len() as int),
                queen_required_spec(turned(*old(self))),
            ),
    {
        let my_moves_by_tile = self.generate_movements_by_tile();
        let my_place_count = self.generate_placements_n();
        let other = self.other_moves();
        self.get_token_graph_with_moves(my_moves_by_tile, my_place_count, &other)
    }
}

} // verus!
