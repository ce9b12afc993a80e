//! The board: pieces on the grid, stacks, pieces still to place, the move
//! history and the position hash.

use vstd::prelude::*;
use std::collections::hash_map::DefaultHasher;
use std::hash::Hasher;
use vstd::string::StringExecFns;
use crate::tile::{adjacent, step, dir_at, Direction, Tile, GRID_SIZE, tile_add};
use crate::piece::{Color, Piece, color_index, spec_other};
use crate::piece_type::{PieceType, pct_index, lemma_pct_roundtrip};
use crate::abstractions::{CachedValue, OccupancyVec, TileSet};
pub use crate::action::{Action, ActionKind, ActionList};

verus! {

/// A piece buried under the top of a stack, with its tile.
#[derive(Clone, Copy, Debug, PartialEq, Eq, Structural)]
pub struct UnderPiece {
    pub tile: Tile,
    pub piece: Piece,
}

impl UnderPiece {
    /// The empty piece on tile 0.
    pub fn default() -> (r: UnderPiece)
        ensures
            r.tile == 0,
            !r.piece.spec_is_some(),
    {
        UnderPiece { tile: 0, piece: Piece::empty() }
    }
}

/// The state of a game.
#[derive(Clone, Copy, Debug, PartialEq, Eq, Structural)]
pub enum GameResult {
    InProgress,
    Winner(Color),
    Draw,
}

/// Hash component toggled at every turn.
pub const PLAYER_HASH: u64 = 0xc851ba955a512175;

/// Number of pieces of each type that a player has in the full game.
pub open spec fn tot_qty(p: int) -> u8 {
    if p == 0 {
        1
    } else if p == 1 {
        3
    } else if p == 2 {
        2
    } else if p == 3 {
        3
    } else if p == 4 {
        2
    } else {
        1
    }
}

/// Number of pieces of each type that a player has in the full game.
pub fn tot_qty_of(p: usize) -> (r: u8)
    requires
        p < 8,
    ensures
        r == tot_qty(p as int),
{
    if p == 0 {
        1
    } else if p == 1 {
        3
    } else if p == 2 {
        2
    } else if p == 3 {
        3
    } else if p == 4 {
        2
    } else {
        1
    }
}

/// The pieces buried on tile `t`, bottom first.
pub open spec fn under_at(uw: Seq<UnderPiece>, t: int) -> Seq<Piece>
    decreases uw.len(),
{
    if uw.len() == 0 {
        Seq::empty()
    } else {
        let r = under_at(uw.drop_last(), t);
        if uw.last().tile == t {
            r.push(uw.last().piece)
        } else {
            r
        }
    }
}

/// The stack on tile `t`, bottom first: the buried pieces, then the top.
pub open spec fn stack_of(world: Seq<Piece>, uw: Seq<UnderPiece>, t: int) -> Seq<Piece> {
    if world[t].spec_is_some() {
        under_at(uw, t).push(world[t])
    } else {
        under_at(uw, t)
    }
}

/// A piece on the board has a number that its type has (the empty piece
/// has none).
pub open spec fn numbered(p: Piece) -> bool {
    p.spec_is_some() ==> 1 <= p.spec_num() <= tot_qty(pct_index(p.spec_ptype()))
}

/// The color to move after `n` plies.
pub open spec fn color_of_turn(n: int) -> Color {
    if n % 2 == 0 {
        Color::White
    } else {
        Color::Black
    }
}

/// Rotate a word left by `k` bits (modulo 64).
pub open spec fn spec_rotl(x: u64, k: u32) -> u64 {
    let k = k % 64;
    if k == 0 {
        x
    } else {
        (x << k) | (x >> ((64 - k) as u32))
    }
}

/// Rotate a word left by `k` bits (modulo 64).
pub fn rotl(x: u64, k: u32) -> (r: u64)
    ensures
        r == spec_rotl(x, k),
{
    let k = k % 64;
    if k == 0 {
        x
    } else {
        (x << k) | (x >> (64 - k))
    }
}

/// The hash key of piece `p` at height `h` (1 for the ground) on tile `t`.
pub open spec fn zkey(table: Seq<u64>, t: int, p: Piece, h: int) -> u64 {
    spec_rotl(
        table[2 * t + color_index(p.spec_color())],
        ((h * 8 + pct_index(p.spec_ptype())) % 64) as u32,
    )
}

/// Abstract state of a board: what the game position is.
pub struct BoardModel {
    /// For each tile, its stack of pieces, bottom first.
    pub stacks: Seq<Seq<Piece>>,
    /// For each color index and piece type index, the pieces still to place.
    pub placeable: Seq<Seq<u8>>,
    /// For each color index, the tile of that player's queen.
    pub queens: Seq<Option<Tile>>,
    /// Number of plies played.
    pub turn_num: int,
    /// Actions played, oldest first.
    pub history: Seq<Action>,
    /// The position hash.
    pub hash: u64,
    /// The position hash after each ply.
    pub hash_history: Seq<u64>,
    /// The random keys the hash is built from.
    pub table: Seq<u64>,
}

/// The top piece of tile `t`.
pub open spec fn top(m: BoardModel, t: int) -> Piece {
    m.stacks[t].last()
}

/// Put `piece` on top of tile `t`.
pub open spec fn add_spec(m: BoardModel, t: int, piece: Piece) -> BoardModel {
    BoardModel {
        stacks: m.stacks.update(t, m.stacks[t].push(piece)),
        queens: if piece.spec_ptype() == PieceType::Queen {
            m.queens.update(color_index(piece.spec_color()), Some(t as u16))
        } else {
            m.queens
        },
        hash: m.hash ^ zkey(m.table, t, piece, m.stacks[t].len() + 1int),
        ..m
    }
}

/// Take the top piece off tile `t`.
pub open spec fn remove_spec(m: BoardModel, t: int) -> BoardModel {
    let piece = top(m, t);
    BoardModel {
        stacks: m.stacks.update(t, m.stacks[t].drop_last()),
        queens: if piece.spec_ptype() == PieceType::Queen {
            m.queens.update(color_index(piece.spec_color()), None)
        } else {
            m.queens
        },
        hash: m.hash ^ zkey(m.table, t, piece, m.stacks[t].len() as int),
        ..m
    }
}

/// The piece that the player to move places next of type `p`.
pub open spec fn next_piece(m: BoardModel, p: PieceType) -> Piece {
    let c = color_of_turn(m.turn_num);
    Piece::spec_make(
        c,
        p,
        (1 + tot_qty(pct_index(p)) - m.placeable[color_index(c)][pct_index(p)]) as u8,
    )
}

/// The position after `a` is played.
pub open spec fn do_spec(m: BoardModel, a: Action) -> BoardModel {
    let m1 = match a.spec_kind() {
        ActionKind::Place(t, p) => {
            let c = color_index(color_of_turn(m.turn_num));
            let m2 = add_spec(m, t as int, next_piece(m, p));
            BoardModel {
                placeable: m2.placeable.update(
                    c,
                    m2.placeable[c].update(pct_index(p), (m2.placeable[c][pct_index(p)] - 1) as u8),
                ),
                ..m2
            }
        },
        ActionKind::Move(f, t) => add_spec(remove_spec(m, f as int), t as int, top(m, f as int)),
        ActionKind::Pass => m,
    };
    let h = m1.hash ^ PLAYER_HASH;
    BoardModel {
        turn_num: m1.turn_num + 1,
        history: m1.history.push(a),
        hash: h,
        hash_history: m1.hash_history.push(h),
        ..m1
    }
}

/// The position after the last action is taken back.
pub open spec fn undo_spec(m: BoardModel) -> BoardModel {
    let a = m.history.last();
    let m0 = BoardModel {
        turn_num: m.turn_num - 1,
        history: m.history.drop_last(),
        hash: m.hash ^ PLAYER_HASH,
        hash_history: if m.hash_history.len() > 0 {
            m.hash_history.drop_last()
        } else {
            m.hash_history
        },
        ..m
    };
    match a.spec_kind() {
        ActionKind::Place(t, p) => {
            let c = color_index(color_of_turn(m0.turn_num));
            let m1 = remove_spec(m0, t as int);
            BoardModel {
                placeable: m1.placeable.update(
                    c,
                    m1.placeable[c].update(pct_index(p), (m1.placeable[c][pct_index(p)] + 1) as u8),
                ),
                ..m1
            }
        },
        ActionKind::Move(f, t) => add_spec(remove_spec(m0, t as int), f as int, top(m0, t as int)),
        ActionKind::Pass => m0,
    }
}

/// The model describes a position: 1024 stacks of valid pieces, each lower
/// than 255, two rows of eight counters, two queen slots, the hash keys.
pub open spec fn model_wf(m: BoardModel) -> bool {
    &&& m.stacks.len() == GRID_SIZE
    &&& forall|t: int|
        0 <= t < GRID_SIZE ==> #[trigger] m.stacks[t].len() < 255 && forall|k: int|
            0 <= k < m.stacks[t].len() ==> m.stacks[t][k].spec_is_some() && m.stacks[t][k].wf()
    &&& m.placeable.len() == 2
    &&& m.placeable[0].len() == 8
    &&& m.placeable[1].len() == 8
    &&& m.queens.len() == 2
    &&& m.table.len() == 2 * GRID_SIZE
    &&& m.turn_num >= 0
}

/// `a` may be played on `m` (as a legal action may): its tiles are on the
/// grid, a placed piece is still in hand with a number in `1..4`, a queen is
/// placed only while its player has none on the board, a moved piece exists
/// and a moved queen is where the queen slot says.
pub open spec fn can_do(m: BoardModel, a: Action) -> bool {
    &&& a.wf()
    &&& m.turn_num + 1 <= usize::MAX
    &&& match a.spec_kind() {
        ActionKind::Place(t, p) => {
            let c = color_index(color_of_turn(m.turn_num));
            let n = m.placeable[c][pct_index(p)];
            &&& m.stacks[t as int].len() + 1 < 255
            &&& 0 < n <= tot_qty(pct_index(p))
            &&& tot_qty(pct_index(p)) <= n + 2
            &&& (p == PieceType::Queen ==> m.queens[c] is None)
        },
        ActionKind::Move(f, t) => {
            &&& f != t
            &&& m.stacks[f as int].len() > 0
            &&& m.stacks[t as int].len() + 1 < 255
            &&& (top(m, f as int).spec_ptype() == PieceType::Queen ==> m.queens[color_index(
                top(m, f as int).spec_color(),
            )] == Some(f))
        },
        ActionKind::Pass => true,
    }
}

/// The last action of `m` may be taken back.
pub open spec fn can_undo(m: BoardModel) -> bool {
    &&& m.history.len() > 0
    &&& m.turn_num > 0
    &&& match m.history.last().spec_kind() {
        ActionKind::Place(t, p) => {
            let c = color_index(color_of_turn(m.turn_num - 1));
            &&& m.stacks[t as int].len() > 0
            &&& m.placeable[c][pct_index(p)] < 255
        },
        ActionKind::Move(f, t) => {
            &&& f != t
            &&& m.stacks[t as int].len() > 0
            &&& m.stacks[f as int].len() + 1 < 255
        },
        ActionKind::Pass => true,
    }
}


/// The game type name of a board with the given expansion pieces.
pub open spec fn gametype_name(m: u8, l: u8, p: u8) -> Seq<char> {
    seq!['B', 'a', 's', 'e'] + if m + l + p > 0 {
        seq!['+'] + (if m > 0 {
            seq!['M']
        } else {
            Seq::empty()
        }) + (if l > 0 {
            seq!['L']
        } else {
            Seq::empty()
        }) + (if p > 0 {
            seq!['P']
        } else {
            Seq::empty()
        })
    } else {
        Seq::empty()
    }
}

/// The pieces in hand at the start: the base set plus `m` mosquitoes, `l`
/// ladybugs and `p` pillbugs for each player.
pub open spec fn initial_placeable(m: u8, l: u8, p: u8) -> Seq<u8> {
    seq![1u8, 3u8, 2u8, 3u8, 2u8, m, l, p]
}

/// `r` is the starting position of a game with `m` mosquitoes, `l`
/// ladybugs and `p` pillbugs per player.
pub open spec fn is_new_board(r: Board, m: u8, l: u8, p: u8) -> bool {
    &&& r.wf()
    &&& r.gametype@ == gametype_name(m, l, p)
    &&& r@.turn_num == 0
    &&& r@.history.len() == 0
    &&& r@.hash_history.len() == 0
    &&& r@.hash == 0
    &&& r@.queens == seq![None::<Tile>, None::<Tile>]
    &&& r@.placeable == seq![initial_placeable(m, l, p), initial_placeable(m, l, p)]
    &&& forall|t: int| 0 <= t < GRID_SIZE ==> #[trigger] r@.stacks[t].len() == 0
}

/// Number of hashes among the 4th, 8th, ..., (4j)th previous ones (when
/// they exist) that equal `h`.
pub open spec fn earlier_matches(hist: Seq<u64>, h: u64, j: int) -> int
    decreases j,
{
    if j <= 0 {
        0
    } else {
        earlier_matches(hist, h, j - 1) + if 4 * j < hist.len() && hist[hist.len() - 1 - 4 * j]
            == h {
            1int
        } else {
            0int
        }
    }
}

/// How many times the current position occurred, counting it, looking back
/// over the same-player positions 4, 8, ..., 32 plies ago; 1 while fewer
/// than 11 hashes were recorded.
pub open spec fn repetitions(m: BoardModel) -> int {
    if m.hash_history.len() <= 10 {
        1
    } else {
        1 + earlier_matches(m.hash_history, m.hash, 8)
    }
}

/// Number of the first `k` neighbours of `q` that hold a piece.
pub open spec fn occupied_neighbours(m: BoardModel, q: int, k: int) -> int
    decreases k,
{
    if k <= 0 {
        0
    } else {
        occupied_neighbours(m, q, k - 1) + if m.stacks[step(q, dir_at(k - 1))].len() > 0 {
            1int
        } else {
            0int
        }
    }
}

/// Number of pieces around the queen of color `c` (0 if it is not placed).
pub open spec fn queen_surround_spec(m: BoardModel, c: Color) -> int {
    match m.queens[color_index(c)] {
        None => 0,
        Some(q) => occupied_neighbours(m, q as int, 6),
    }
}

/// Result of the game: a draw by threefold repetition, else decided by the
/// surrounded queens.
pub open spec fn game_result_spec(m: BoardModel) -> GameResult {
    if repetitions(m) >= 3 {
        GameResult::Draw
    } else {
        let sw = queen_surround_spec(m, Color::White);
        let sb = queen_surround_spec(m, Color::Black);
        if sw == 6 && sb == 6 {
            GameResult::Draw
        } else if sw == 6 {
            GameResult::Winner(Color::Black)
        } else if sb == 6 {
            GameResult::Winner(Color::White)
        } else {
            GameResult::InProgress
        }
    }
}

/// A move attacks the opponent's queen: it ends on or next to it.
pub open spec fn is_noisy_spec(m: BoardModel, a: Action) -> bool {
    match a.spec_kind() {
        ActionKind::Move(_, to) => match m.queens[color_index(spec_other(color_of_turn(m.turn_num)))] {
            Some(q) => to == q || exists|i: int| 0 <= i < 6 && step(to as int, dir_at(i)) == q,
            None => false,
        },
        _ => false,
    }
}

/// Hash keys produced by the standard hasher, one per tile and color.
pub fn zobrist_keys() -> (r: Vec<u64>)
    ensures
        r@.len() == 2 * GRID_SIZE,
{
    let mut table: Vec<u64> = Vec::new();
    let mut hasher = DefaultHasher::new();
    let mut i: usize = 0;
    while i < 2 * GRID_SIZE
        invariant
            0 <= i <= 2 * GRID_SIZE,
            table@.len() == i,
        decreases 2 * GRID_SIZE - i,
    {
        hasher_write_usize(&mut hasher, i);
        table.push(hasher.finish());
        i += 1;
    }
    table
}

/// `Hasher::write_usize` of the standard library, which feeds the native
/// bytes of `i` to the hasher. Nothing is claimed of the hasher's new state.
#[verifier::external_body]
fn hasher_write_usize(h: &mut DefaultHasher, i: usize) {
    h.write_usize(i);
}

/// Toggling the same keys twice restores a hash.
pub proof fn lemma_xor_cancel(h: u64, a: u64, b: u64, c: u64)
    ensures
        ((((h ^ a) ^ b) ^ c) ^ c) ^ b ^ a == h,
        (((h ^ a) ^ c) ^ c) ^ a == h,
        (h ^ c) ^ c == h,
{
    assert(((((h ^ a) ^ b) ^ c) ^ c) ^ b ^ a == h && (((h ^ a) ^ c) ^ c) ^ a == h && (h ^ c) ^ c
        == h) by (bit_vector);
}

/// Taking back an action restores the position it was played from: every
/// stack, the pieces in hand, the queens, the ply count, the history and the
/// hash. This is what lets a search explore a move and return.
pub proof fn lemma_undo_inverts_do(m: BoardModel, a: Action)
    requires
        model_wf(m),
        can_do(m, a),
    ensures
        can_undo(do_spec(m, a)),
        undo_spec(do_spec(m, a)) == m,
        model_wf(do_spec(m, a)),
{
    let d = do_spec(m, a);
    let u = undo_spec(d);
    assert(d.history.last() == a);
    match a.spec_kind() {
        ActionKind::Place(t, p) => {
            let c = color_index(color_of_turn(m.turn_num));
            let piece = next_piece(m, p);
            let n = m.placeable[c][pct_index(p)];
            crate::piece::lemma_spec_make(color_of_turn(m.turn_num), p, (1 + tot_qty(pct_index(p)) - n) as u8);
            lemma_pct_roundtrip(p);
            assert(top(d, t as int) == piece);
            lemma_xor_cancel(m.hash, zkey(m.table, t as int, piece, m.stacks[t as int].len() + 1int), 0, PLAYER_HASH);
            assert(m.stacks[t as int].push(piece).drop_last() =~= m.stacks[t as int]);
            assert(u.stacks =~= m.stacks);
            assert(u.placeable[c] =~= m.placeable[c]);
            assert(u.placeable =~= m.placeable);
            assert(u.queens =~= m.queens);
            assert(u.history =~= m.history);
            assert(u.hash_history =~= m.hash_history);
            assert forall|x: int|
                0 <= x < GRID_SIZE implies #[trigger] d.stacks[x].len() < 255 && forall|k: int|
                0 <= k < d.stacks[x].len() ==> d.stacks[x][k].spec_is_some() && d.stacks[x][k].wf() by {
                assert(m.stacks[x].len() < 255);
            }
        },
        ActionKind::Move(f, t) => {
            let piece = top(m, f as int);
            let r = remove_spec(m, f as int);
            assert(m.stacks[f as int].len() < 255);
            assert(piece.spec_is_some());
            assert(top(d, t as int) == piece);
            lemma_xor_cancel(
                m.hash,
                zkey(m.table, f as int, piece, m.stacks[f as int].len() as int),
                zkey(m.table, t as int, piece, m.stacks[t as int].len() + 1int),
                PLAYER_HASH,
            );
            assert(m.stacks[t as int].push(piece).drop_last() =~= m.stacks[t as int]);
            assert(m.stacks[f as int].drop_last().push(piece) =~= m.stacks[f as int]);
            assert(u.stacks[f as int] =~= m.stacks[f as int]);
            assert(u.stacks =~= m.stacks);
            assert(u.queens =~= m.queens);
            assert(u.history =~= m.history);
            assert(u.hash_history =~= m.hash_history);
            assert forall|x: int|
                0 <= x < GRID_SIZE implies #[trigger] d.stacks[x].len() < 255 && forall|k: int|
                0 <= k < d.stacks[x].len() ==> d.stacks[x][k].spec_is_some() && d.stacks[x][k].wf() by {
                assert(m.stacks[x].len() < 255);
            }
        },
        ActionKind::Pass => {
            lemma_xor_cancel(m.hash, 0, 0, PLAYER_HASH);
            assert(u.history =~= m.history);
            assert(u.hash_history =~= m.hash_history);
        },
    }
}

/// Burying one more piece adds it to the buried pieces of its tile only.
pub proof fn lemma_under_at_push(uw: Seq<UnderPiece>, x: UnderPiece, t: int)
    ensures
        under_at(uw.push(x), t) == (if x.tile == t {
            under_at(uw, t).push(x.piece)
        } else {
            under_at(uw, t)
        }),
{
    assert(uw.push(x).drop_last() =~= uw);
}

/// Removing the last buried entry of tile `t` takes the top buried piece off
/// tile `t` and leaves every other tile alone.
pub proof fn lemma_under_at_remove(uw: Seq<UnderPiece>, i: int, u: int)
    requires
        0 <= i < uw.len(),
        forall|j: int| i < j < uw.len() ==> uw[j].tile != uw[i].tile,
    ensures
        under_at(uw.remove(i), u) == (if u == uw[i].tile {
            under_at(uw, u).drop_last()
        } else {
            under_at(uw, u)
        }),
        u == uw[i].tile ==> under_at(uw, u).len() > 0 && under_at(uw, u).last() == uw[i].piece,
    decreases uw.len(),
{
    if i == uw.len() - 1 {
        assert(uw.remove(i) =~= uw.drop_last());
    } else {
        let r = uw.remove(i);
        assert(r.drop_last() =~= uw.drop_last().remove(i));
        assert(r.last() == uw.last());
        lemma_under_at_remove(uw.drop_last(), i, u);
    }
}

/// Every buried piece of a tile is one of the buried entries' pieces.
pub proof fn lemma_under_at_pieces(uw: Seq<UnderPiece>, t: int, k: int)
    requires
        0 <= k < under_at(uw, t).len(),
    ensures
        exists|i: int| 0 <= i < uw.len() && uw[i].tile == t && uw[i].piece == under_at(uw, t)[k],
    decreases uw.len(),
{
    if uw.len() > 0 {
        let r = under_at(uw.drop_last(), t);
        if k < r.len() {
            lemma_under_at_pieces(uw.drop_last(), t, k);
            let i = choose|i: int|
                0 <= i < uw.drop_last().len() && uw.drop_last()[i].tile == t
                    && uw.drop_last()[i].piece == r[k];
            assert(uw[i] == uw.drop_last()[i]);
        } else {
            assert(uw[uw.len() - 1].tile == t);
        }
    }
}

/// A board: each tile's top piece, the buried pieces, the pieces still to
/// place, the queens, the tiles occupied by each player, the history and the
/// position hash.
#[derive(Clone)]
pub struct Board {
    pub gametype: String,
    /// The piece on each tile; for a stack, its top piece.
    pub world: Vec<Piece>,
    /// The buried pieces, in the order they were buried.
    pub underworld: Vec<UnderPiece>,
    /// Pieces still to place, by color index and piece type index.
    pub placeable: [[u8; 8]; 2],
    /// Where each player's queen is.
    pub queens: [Option<Tile>; 2],
    /// The tiles whose top piece belongs to each player.
    pub occupied_tiles: [OccupancyVec; 2],
    /// Number of plies played.
    pub turn_num: usize,
    /// Actions played, oldest first.
    pub turn_history: Vec<Action>,
    /// Tiles where each player may place (kept for callers; not maintained).
    pub tiles_placeable: [TileSet; 2],
    /// Number of pieces on each tile.
    pub height: Vec<u8>,
    /// Cache of the pieces that may not move.
    pub immovable: CachedValue<TileSet>,
    /// Random keys for the position hash.
    pub zobrist_table: Vec<u64>,
    /// The position hash.
    pub zobrist_hash: u64,
    /// The position hash after each ply.
    pub zobrist_history: Vec<u64>,
}

impl View for Board {
    type V = BoardModel;

    open spec fn view(&self) -> BoardModel {
        BoardModel {
            stacks: Seq::new(
                GRID_SIZE as nat,
                |t: int| stack_of(self.world@, self.underworld@, t),
            ),
            placeable: Seq::new(2, |c: int| self.placeable[c]@),
            queens: self.queens@,
            turn_num: self.turn_num as int,
            history: self.turn_history@,
            hash: self.zobrist_hash,
            hash_history: self.zobrist_history@,
            table: self.zobrist_table@,
        }
    }
}

impl Board {
    /// The starting position of a game with the base pieces plus `m`
    /// mosquitoes, `l` ladybugs and `p` pillbugs per player.
    pub fn new_mlp(m: u8, l: u8, p: u8) -> (r: Board)
        requires
            m + l + p <= 255,
        ensures
            r.wf(),
            r.gametype@ == gametype_name(m, l, p),
            r@.turn_num == 0,
            r@.history.len() == 0,
            r@.hash_history.len() == 0,
            r@.hash == 0,
            r@.queens == seq![None::<Tile>, None::<Tile>],
            r@.placeable == seq![initial_placeable(m, l, p), initial_placeable(m, l, p)],
            forall|t: int| 0 <= t < GRID_SIZE ==> #[trigger] r@.stacks[t].len() == 0,
            is_new_board(r, m, l, p),
    {
        let zobrist_table = zobrist_keys();
        let mut gametype = String::from_str("Base");
        proof {
            reveal_strlit("Base");
            reveal_strlit("+");
            reveal_strlit("M");
            reveal_strlit("L");
            reveal_strlit("P");
        }
        if m + l + p > 0 {
            gametype.append("+");
            if m > 0 {
                gametype.append("M");
            }
            if l > 0 {
                gametype.append("L");
            }
            if p > 0 {
                gametype.append("P");
            }
        }
        assert(gametype@ =~= gametype_name(m, l, p));
        let e = Piece::empty();
        let world = vec![e; GRID_SIZE];
        let height = vec![0u8; GRID_SIZE];
        let r = Board {
            gametype,
            world,
            underworld: Vec::new(),
            placeable: [[1, 3, 2, 3, 2, m, l, p], [1, 3, 2, 3, 2, m, l, p]],
            queens: [None, None],
            occupied_tiles: [OccupancyVec::new(), OccupancyVec::new()],
            turn_num: 0,
            turn_history: Vec::new(),
            tiles_placeable: [TileSet::new(), TileSet::new()],
            height,
            immovable: CachedValue::new(),
            zobrist_table,
            zobrist_hash: 0,
            zobrist_history: Vec::new(),
        };
        assert forall|t: int| 0 <= t < GRID_SIZE implies #[trigger] r@.stacks[t].len() == 0 by {
            assert(r.world@[t] == e);
        }
        assert forall|t: int| 0 <= t < GRID_SIZE implies (#[trigger] r.world@[t]).wf() && r.height@[t]
            == stack_of(r.world@, r.underworld@, t).len() by {
            assert(r.world@[t] == e);
        }
        assert(r@.placeable =~= seq![initial_placeable(m, l, p), initial_placeable(m, l, p)]);
        assert(r@.queens =~= seq![None::<Tile>, None::<Tile>]);
        r
    }

    /// The starting position with one mosquito, ladybug and pillbug each.
    pub fn new() -> (r: Board)
        ensures
            r.wf(),
            r.gametype@ == gametype_name(1, 1, 1),
            r@.turn_num == 0,
            r@.history.len() == 0,
            r@.hash_history.len() == 0,
            r@.hash == 0,
            r@.queens == seq![None::<Tile>, None::<Tile>],
            r@.placeable == seq![initial_placeable(1, 1, 1), initial_placeable(1, 1, 1)],
            forall|t: int| 0 <= t < GRID_SIZE ==> #[trigger] r@.stacks[t].len() == 0,
            is_new_board(r, 1, 1, 1),
    {
        Board::new_mlp(1, 1, 1)
    }

    /// Number of pieces around the queen of color `color`.
    fn queen_surround(&self, color: Color) -> (r: usize)
        requires
            self.wf(),
        ensures
            r == queen_surround_spec(self@, color),
    {
        match self.queens[color.index()] {
            None => 0,
            Some(tile) => {
                let n = adjacent(tile);
                let mut cnt: usize = 0;
                let mut k: usize = 0;
                while k < 6
                    invariant
                        self.wf(),
                        0 <= k <= 6,
                        forall|i: int| 0 <= i < 6 ==> n@[i] == #[trigger] step(tile as int, dir_at(i)),
                        forall|i: int| 0 <= i < 6 ==> n@[i] < GRID_SIZE,
                        cnt == occupied_neighbours(self@, tile as int, k as int),
                        cnt <= k,
                    decreases 6 - k,
                {
                    assert(n@[k as int] == step(tile as int, dir_at(k as int)));
                    if self.occupied(n[k]) {
                        cnt += 1;
                    }
                    k += 1;
                }
                cnt
            },
        }
    }

    /// How many times the current position occurred recently; see
    /// `repetitions`.
    fn count_repetitions(&self) -> (r: usize)
        ensures
            r == repetitions(self@),
    {
        let hist = &self.zobrist_history;
        let len = hist.len();
        if len <= 10 {
            return 1;
        }
        let mut cnt: usize = 0;
        let mut j: usize = 1;
        while j <= 8
            invariant
                1 <= j <= 9,
                len == hist@.len(),
                hist@ == self.zobrist_history@,
                cnt == earlier_matches(hist@, self.zobrist_hash, j - 1),
                cnt < j,
            decreases 9 - j,
        {
            if 4 * j < len && hist[len - 1 - 4 * j] == self.zobrist_hash {
                cnt += 1;
            }
            j += 1;
        }
        1 + cnt
    }

    /// The result of the game in this position.
    pub fn game_result(&self) -> (r: GameResult)
        requires
            self.wf(),
        ensures
            r == game_result_spec(self@),
    {
        let repetitions = self.count_repetitions();
        if repetitions >= 3 {
            return GameResult::Draw;
        }
        let sw = self.queen_surround(Color::White);
        let sb = self.queen_surround(Color::Black);
        if sw == 6 && sb == 6 {
            GameResult::Draw
        } else if sw == 6 {
            GameResult::Winner(Color::Black)
        } else if sb == 6 {
            GameResult::Winner(Color::White)
        } else {
            GameResult::InProgress
        }
    }

    /// A move is noisy if it attacks the opponent's queen.
    pub fn is_noisy(&self, action: &Action) -> (r: bool)
        ensures
            r == is_noisy_spec(self@, *action),
    {
        if action.is_move() {
            let to = action.move_to();
            let queen = self.queens[self.color().other().index()];
            if let Some(target) = queen {
                if to == target {
                    return true;
                }
                let dirs = Direction::all();
                let mut k: usize = 0;
                while k < 6
                    invariant
                        0 <= k <= 6,
                        forall|i: int| 0 <= i < 6 ==> dirs@[i] == dir_at(i),
                        forall|i: int| 0 <= i < k ==> step(to as int, dir_at(i)) != target,
                        action.spec_kind() matches ActionKind::Move(_, t) && t == to,
                        self.queens[color_index(spec_other(color_of_turn(self.turn_num as int)))]
                            == Some(target),
                    decreases 6 - k,
                {
                    if tile_add(to, dirs[k]) == target {
                        assert(step(to as int, dir_at(k as int)) == target);
                        return true;
                    }
                    k += 1;
                }
            }
        }
        false
    }

    /// A move is quiet if it does not attack the opponent's queen.
    pub fn is_quiet(&self, action: &Action) -> (r: bool)
        ensures
            r == !is_noisy_spec(self@, *action),
    {
        !self.is_noisy(action)
    }

    /// The tiles topped by the player to move, then those of the opponent.
    pub fn all_occupied_tiles(&self) -> (r: Vec<Tile>)
        ensures
            r@ == self.occupied_tiles[color_index(color_of_turn(self.turn_num as int))].occupants@
                + self.occupied_tiles[color_index(spec_other(color_of_turn(self.turn_num as int)))].occupants@,
    {
        let c = self.color();
        let mut r = self.occupied_tiles[c.index()].occupants.clone();
        let mut other = self.occupied_tiles[c.other().index()].occupants.clone();
        r.append(&mut other);
        r
    }

    /// The hash key of piece `p` at height `h` on tile `t`.
    fn zobrist(&self, t: Tile, p: Piece, h: u32) -> (r: u64)
        requires
            self.zobrist_table@.len() == 2 * GRID_SIZE,
            t < GRID_SIZE,
            h < 256,
        ensures
            r == zkey(self.zobrist_table@, t as int, p, h as int),
    {
        let idx = (t as usize) * 2 + p.color().index();
        let pt = p.ptype().index() as u32;
        let k = (h << 3u32) | pt;
        assert(k == h * 8 + pt) by (bit_vector)
            requires
                h < 256,
                pt < 8,
                k == (h << 3u32) | pt,
        ;
        let r = rotl(self.zobrist_table[idx], k);
        assert((k % 64) % 64 == k % 64);
        r
    }

    /// A well-formed board describes a position.
    pub proof fn lemma_wf_model(&self)
        requires
            self.wf(),
        ensures
            model_wf(self@),
    {
        let m = self@;
        assert forall|t: int| 0 <= t < GRID_SIZE implies #[trigger] m.stacks[t].len() < 255
            && forall|k: int|
            0 <= k < m.stacks[t].len() ==> m.stacks[t][k].spec_is_some() && m.stacks[t][k].wf() by {
            assert(self.world@[t].wf());
            assert forall|k: int| 0 <= k < m.stacks[t].len() implies m.stacks[t][k].spec_is_some()
                && m.stacks[t][k].wf() by {
                let ua = under_at(self.underworld@, t);
                if k < ua.len() {
                    lemma_under_at_pieces(self.underworld@, t, k);
                    let i = choose|i: int|
                        0 <= i < self.underworld@.len() && self.underworld@[i].tile == t
                            && self.underworld@[i].piece == ua[k];
                    assert(self.underworld@[i].piece.wf());
                }
            }
        }
    }

    /// Put `piece` on top of `tile`, burying the piece that was there.
    #[verifier::spinoff_prover]
    fn add_piece(&mut self, tile: Tile, piece: Piece)
        requires
            old(self).wf(),
            tile < GRID_SIZE,
            piece.spec_is_some(),
            piece.wf(),
            numbered(piece),
            old(self).height@[tile as int] + 1 < 255,
        ensures
            final(self).wf(),
            final(self)@ == add_spec(old(self)@, tile as int, piece),
            final(self).gametype == old(self).gametype,
            final(self).placeable == old(self).placeable,
            final(self).turn_num == old(self).turn_num,
            final(self).turn_history == old(self).turn_history,
            final(self).zobrist_history == old(self).zobrist_history,
            final(self).zobrist_table == old(self).zobrist_table,
    {
        let ghost m0 = self@;
        let ghost uw0 = self.underworld@;
        let curr = self.world[tile as usize];
        if curr.is_some() {
            self.underworld.push(UnderPiece { tile, piece: curr });
            let cc = curr.color().index();
            assert(self.occupied_tiles[cc as int].occupants@.contains(tile));
            self.occupied_tiles[cc].remove(tile);
        }
        let ghost occ_mid = self.occupied_tiles;
        self.world.set(tile as usize, piece);
        let pc = piece.color().index();
        assert(!self.occupied_tiles[pc as int].occupants@.contains(tile)) by {
            if self.occupied_tiles[pc as int].occupants@.contains(tile) {
                assert(self.occupied_tiles[pc as int].occupants@.to_set().contains(tile));
            }
        }
        self.occupied_tiles[pc].push(tile);
        if piece.ptype() == PieceType::Queen {
            self.queens[pc] = Some(tile);
        }
        let h = self.height[tile as usize] + 1;
        self.height.set(tile as usize, h);
        let z = self.zobrist(tile, piece, h as u32);
        self.zobrist_hash = self.zobrist_hash ^ z;
        proof {
            let uw = self.underworld@;
            assert forall|u: int| 0 <= u < GRID_SIZE implies under_at(uw, u) == (if u == tile
                && curr.spec_is_some() {
                under_at(uw0, u).push(curr)
            } else {
                under_at(uw0, u)
            }) by {
                if curr.spec_is_some() {
                    lemma_under_at_push(uw0, UnderPiece { tile, piece: curr }, u);
                }
            }
            let m1 = self@;
            let ms = add_spec(m0, tile as int, piece);
            assert forall|u: int| 0 <= u < GRID_SIZE implies #[trigger] m1.stacks[u] == ms.stacks[u] by {
                if u == tile {
                    if !curr.spec_is_some() {
                        assert(under_at(uw0, u).len() == 0);
                    }
                    assert(m1.stacks[u] =~= ms.stacks[u]);
                }
            }
            assert(m1.stacks =~= ms.stacks);
            assert(m1.placeable =~= ms.placeable);
            assert(m1.queens =~= ms.queens);
            assert forall|t: int| 0 <= t < GRID_SIZE implies {
                &&& (#[trigger] self.world@[t]).wf()
                &&& self.height@[t] < 255
                &&& self.height@[t] == stack_of(self.world@, self.underworld@, t).len()
                &&& (!self.world@[t].spec_is_some() ==> under_at(self.underworld@, t).len() == 0)
            } by {
                assert(m1.stacks[t] == ms.stacks[t]);
                assert(old(self).height@[t] == m0.stacks[t].len());
            }
            assert forall|i: int| 0 <= i < uw.len() implies (#[trigger] uw[i]).tile < GRID_SIZE
                && uw[i].piece.spec_is_some() && uw[i].piece.wf() by {
                if i < uw0.len() {
                    assert(uw[i] == uw0[i]);
                }
            }
            assert forall|c: int| 0 <= c < 2 implies (#[trigger] self.occupied_tiles[c]).occupants@.no_duplicates() by {
                if c == pc {
                    assert forall|a: int, b: int|
                        0 <= a < self.occupied_tiles[c].occupants@.len() && 0 <= b
                            < self.occupied_tiles[c].occupants@.len() && a != b implies self.occupied_tiles[c].occupants@[a]
                        != self.occupied_tiles[c].occupants@[b] by {
                        let s0 = occ_mid[c].occupants@;
                        if a < s0.len() && b < s0.len() {
                        } else if a < s0.len() {
                            assert(s0.contains(s0[a]));
                        } else if b < s0.len() {
                            assert(s0.contains(s0[b]));
                        }
                    }
                }
            }
            assert forall|c: int, t: Tile| 0 <= c < 2 implies (#[trigger] self.occupied_tiles[c].occupants@.contains(t)
                <==> (t < GRID_SIZE && self.world@[t as int].spec_is_some() && color_index(
                self.world@[t as int].spec_color(),
            ) == c)) by {
                let s0 = occ_mid[c].occupants@;
                if curr.spec_is_some() && c == color_index(curr.spec_color()) {
                    assert(s0.to_set().contains(t) == s0.contains(t));
                    assert(old(self).occupied_tiles[c].occupants@.to_set().contains(t)
                        == old(self).occupied_tiles[c].occupants@.contains(t));
                }
                if c == pc {
                    if self.occupied_tiles[c].occupants@.contains(t) && t != tile {
                        let k = choose|k: int| 0 <= k < self.occupied_tiles[c].occupants@.len() && self.occupied_tiles[c].occupants@[k] == t;
                        assert(s0[k] == t);
                        assert(s0.contains(t));
                    }
                    if s0.contains(t) {
                        let k = choose|k: int| 0 <= k < s0.len() && s0[k] == t;
                        assert(self.occupied_tiles[c].occupants@[k] == t);
                    }
                    if t == tile {
                        assert(self.occupied_tiles[c].occupants@[s0.len() as int] == t);
                    }
                }
            }
            assert(self.world@.len() == GRID_SIZE);
            assert(self.height@.len() == GRID_SIZE);
            assert(self.zobrist_table@.len() == 2 * GRID_SIZE);
            assert(self.turn_history == old(self).turn_history);
        }
    }

    /// Take the top piece off `tile`, uncovering the piece under it.
    #[verifier::spinoff_prover]
    #[verifier::rlimit(40)]
    fn remove_piece(&mut self, tile: Tile)
        requires
            old(self).wf(),
            tile < GRID_SIZE,
            old(self).world@[tile as int].spec_is_some(),
        ensures
            final(self).wf(),
            final(self)@ == remove_spec(old(self)@, tile as int),
            final(self).gametype == old(self).gametype,
            final(self).placeable == old(self).placeable,
            final(self).turn_num == old(self).turn_num,
            final(self).turn_history == old(self).turn_history,
            final(self).zobrist_history == old(self).zobrist_history,
            final(self).zobrist_table == old(self).zobrist_table,
    {
        let ghost m0 = self@;
        let ghost uw0 = self.underworld@;
        let h = self.height[tile as usize];
        let curr = self.world[tile as usize];
        assert(m0.stacks[tile as int].last() == curr);
        let z = self.zobrist(tile, curr, h as u32);
        self.zobrist_hash = self.zobrist_hash ^ z;
        self.height.set(tile as usize, h - 1);
        let cc = curr.color().index();
        if curr.ptype() == PieceType::Queen {
            self.queens[cc] = None;
        }
        assert(self.occupied_tiles[cc as int].occupants@.contains(tile));
        self.occupied_tiles[cc].remove(tile);
        let ghost occ_mid = self.occupied_tiles;
        let ghost revealed: Option<Piece> = None;
        if h - 1 > 0 {
            assert(under_at(uw0, tile as int).len() > 0);
            proof {
                lemma_under_at_pieces(uw0, tile as int, 0);
            }
            let mut i: usize = self.underworld.len() - 1;
            while self.underworld[i].tile != tile
                invariant
                    self.underworld@ == uw0,
                    i < uw0.len(),
                    forall|j: int| i < j < uw0.len() ==> uw0[j].tile != tile,
                    exists|k: int| 0 <= k < uw0.len() && uw0[k].tile == tile,
                decreases i,
            {
                if i == 0 {
                    proof {
                        let k = choose|k: int| 0 <= k < uw0.len() && uw0[k].tile == tile;
                        assert(uw0[k].tile != tile);
                    }
                }
                i -= 1;
            }
            let up = self.underworld.remove(i);
            proof {
                assert forall|u: int| 0 <= u < GRID_SIZE implies under_at(self.underworld@, u) == (if u
                    == tile {
                    under_at(uw0, u).drop_last()
                } else {
                    under_at(uw0, u)
                }) by {
                    lemma_under_at_remove(uw0, i as int, u);
                }
                lemma_under_at_remove(uw0, i as int, tile as int);
                revealed = Some(up.piece);
                let uw = self.underworld@;
                assert forall|j: int| 0 <= j < uw.len() implies (#[trigger] uw[j]).tile < GRID_SIZE
                    && uw[j].piece.spec_is_some() && uw[j].piece.wf() by {
                    if j < i {
                        assert(uw[j] == uw0[j]);
                    } else {
                        assert(uw[j] == uw0[j + 1]);
                    }
                }
            }
            self.world.set(tile as usize, up.piece);
            let pc = up.piece.color().index();
            assert(!self.occupied_tiles[pc as int].occupants@.contains(tile)) by {
                if self.occupied_tiles[pc as int].occupants@.contains(tile) {
                    assert(self.occupied_tiles[pc as int].occupants@.to_set().contains(tile));
                }
            }
            self.occupied_tiles[pc].push(tile);
        } else {
            self.world.set(tile as usize, Piece::empty());
        }
        proof {
            let uw = self.underworld@;
            let m1 = self@;
            let ms = remove_spec(m0, tile as int);
            assert forall|u: int| 0 <= u < GRID_SIZE implies #[trigger] m1.stacks[u] == ms.stacks[u] by {
                if u == tile {
                    assert(m1.stacks[u] =~= ms.stacks[u]);
                }
            }
            assert(m1.stacks =~= ms.stacks);
            assert(m1.placeable =~= ms.placeable);
            assert(m1.queens =~= ms.queens);
            assert forall|t: int| 0 <= t < GRID_SIZE implies {
                &&& (#[trigger] self.world@[t]).wf()
                &&& self.height@[t] < 255
                &&& self.height@[t] == stack_of(self.world@, self.underworld@, t).len()
                &&& (!self.world@[t].spec_is_some() ==> under_at(self.underworld@, t).len() == 0)
            } by {
                assert(m1.stacks[t] == ms.stacks[t]);
                assert(old(self).height@[t] == m0.stacks[t].len());
            }
            assert forall|c: int| 0 <= c < 2 implies (#[trigger] self.occupied_tiles[c]).occupants@.no_duplicates() by {
                if revealed is Some && c == color_index(revealed->0.spec_color()) {
                    assert forall|a: int, b: int|
                        0 <= a < self.occupied_tiles[c].occupants@.len() && 0 <= b
                            < self.occupied_tiles[c].occupants@.len() && a != b implies self.occupied_tiles[c].occupants@[a]
                        != self.occupied_tiles[c].occupants@[b] by {
                        let s0 = occ_mid[c].occupants@;
                        if a < s0.len() && b < s0.len() {
                        } else if a < s0.len() {
                            assert(s0.contains(s0[a]));
                        } else if b < s0.len() {
                            assert(s0.contains(s0[b]));
                        }
                    }
                }
            }
            assert forall|c: int, t: Tile| 0 <= c < 2 implies (#[trigger] self.occupied_tiles[c].occupants@.contains(t)
                <==> (t < GRID_SIZE && self.world@[t as int].spec_is_some() && color_index(
                self.world@[t as int].spec_color(),
            ) == c)) by {
                let s0 = occ_mid[c].occupants@;
                if c == cc {
                    assert(s0.to_set().contains(t) == s0.contains(t));
                    assert(old(self).occupied_tiles[c].occupants@.to_set().contains(t)
                        == old(self).occupied_tiles[c].occupants@.contains(t));
                }
                if revealed is Some && c == color_index(revealed->0.spec_color()) {
                    if self.occupied_tiles[c].occupants@.contains(t) && t != tile {
                        let k = choose|k: int| 0 <= k < self.occupied_tiles[c].occupants@.len() && self.occupied_tiles[c].occupants@[k] == t;
                        assert(s0[k] == t);
                        assert(s0.contains(t));
                    }
                    if s0.contains(t) {
                        let k = choose|k: int| 0 <= k < s0.len() && s0[k] == t;
                        assert(self.occupied_tiles[c].occupants@[k] == t);
                    }
                    if t == tile {
                        assert(self.occupied_tiles[c].occupants@[s0.len() as int] == t);
                    }
                }
            }
            assert(self.world@.len() == GRID_SIZE);
            assert(self.height@.len() == GRID_SIZE);
            assert(self.zobrist_table@.len() == 2 * GRID_SIZE);
            assert(self.turn_history == old(self).turn_history);
            assert(forall|i: int|
            0 <= i < self.underworld@.len() ==> (#[trigger] self.underworld@[i]).tile < GRID_SIZE
                && self.underworld@[i].piece.spec_is_some() && self.underworld@[i].piece.wf());
            assert(forall|i: int| 0 <= i < self.turn_history@.len() ==> (#[trigger] self.turn_history@[i]).wf());
            assert(self.wf());
            assert(self@ == remove_spec(m0, tile as int));
        }
    }

    /// The player to move.
    pub fn color(&self) -> (r: Color)
        ensures
            r == color_of_turn(self.turn_num as int),
    {
        Color::from_index((self.turn_num % 2) as u8)
    }

    /// The piece on top of `tile` (the empty piece if there is none).
    pub fn tile(&self, tile: Tile) -> (r: Piece)
        requires
            self.wf(),
            tile < GRID_SIZE,
        ensures
            r == self.world@[tile as int],
    {
        self.world[tile as usize]
    }

    /// Some piece is on `tile`.
    pub fn occupied(&self, tile: Tile) -> (r: bool)
        requires
            self.wf(),
            tile < GRID_SIZE,
        ensures
            r == self.world@[tile as int].spec_is_some(),
            r == (self@.stacks[tile as int].len() > 0),
    {
        self.world[tile as usize].is_some()
    }

    /// From the sixth ply on, a player who has not placed the queen must.
    pub fn queen_required(&self) -> (r: bool)
        ensures
            r == (self.turn_num > 5 && self.placeable[color_index(
                color_of_turn(self.turn_num as int),
            )][0] > 0),
    {
        let c = self.color().index();
        self.turn_num > 5 && self.placeable[c][0] > 0
    }

    /// Number of pieces on `tile`.
    pub fn height(&self, tile: Tile) -> (r: i32)
        requires
            self.wf(),
            tile < GRID_SIZE,
        ensures
            r == self.height@[tile as int],
            r == self@.stacks[tile as int].len(),
            0 <= r < 255,
    {
        assert(self.world@[tile as int].wf());
        self.height[tile as usize] as i32
    }

    /// More than one piece is on `tile`.
    pub fn is_stacked(&self, tile: Tile) -> (r: bool)
        requires
            self.wf(),
            tile < GRID_SIZE,
        ensures
            r == (self@.stacks[tile as int].len() > 1),
    {
        self.height(tile) > 1
    }

    /// The pieces buried on `tile`, bottom first.
    pub fn underworld_at(&self, tile: Tile) -> (r: Vec<Piece>)
        ensures
            r@ == under_at(self.underworld@, tile as int),
    {
        let mut res: Vec<Piece> = Vec::new();
        let mut i: usize = 0;
        while i < self.underworld.len()
            invariant
                0 <= i <= self.underworld@.len(),
                res@ == under_at(self.underworld@.subrange(0, i as int), tile as int),
            decreases self.underworld@.len() - i,
        {
            proof {
                let s = self.underworld@.subrange(0, i as int + 1);
                assert(s.drop_last() =~= self.underworld@.subrange(0, i as int));
            }
            if self.underworld[i].tile == tile {
                res.push(self.underworld[i].piece);
            }
            i += 1;
        }
        assert(self.underworld@.subrange(0, i as int) =~= self.underworld@);
        res
    }

    /// The piece of type `pct` that the player to move places next.
    pub fn make_next_piece(&self, pct: PieceType) -> (r: Piece)
        requires
            self.placeable[color_index(color_of_turn(self.turn_num as int))][pct_index(pct)]
                <= tot_qty(pct_index(pct)),
            tot_qty(pct_index(pct)) <= self.placeable[color_index(
                color_of_turn(self.turn_num as int),
            )][pct_index(pct)] + 2,
        ensures
            r == next_piece(self@, pct),
            r.spec_is_some(),
            r.wf(),
            r.spec_ptype() == pct,
            r.spec_num() == 1 + tot_qty(pct_index(pct)) - self.placeable[color_index(
                color_of_turn(self.turn_num as int),
            )][pct_index(pct)],
    {
        let c = self.color();
        let p = pct.index();
        let num = 1 + tot_qty_of(p) - self.placeable[c.index()][p];
        Piece::make(c, pct, num)
    }

    /// Move the top piece of `from` onto `to`.
    #[verifier::spinoff_prover]
    fn do_move(&mut self, from: Tile, to: Tile)
        requires
            old(self).wf(),
            from < GRID_SIZE,
            to < GRID_SIZE,
            from != to,
            old(self).world@[from as int].spec_is_some(),
            old(self).height@[to as int] + 1 < 255,
        ensures
            final(self).wf(),
            final(self)@ == add_spec(
                remove_spec(old(self)@, from as int),
                to as int,
                top(old(self)@, from as int),
            ),
            final(self).gametype == old(self).gametype,
            final(self).placeable == old(self).placeable,
            final(self).turn_num == old(self).turn_num,
            final(self).turn_history == old(self).turn_history,
            final(self).zobrist_history == old(self).zobrist_history,
    {
        let piece = self.tile(from);
        proof {
            self.lemma_wf_model();
            assert(self@.stacks[from as int].last() == piece);
        }
        let ghost m0 = self@;
        assert(old(self).world@[to as int].wf());
        self.remove_piece(from);
        assert(self.world@[to as int].wf());
        assert(self@.stacks[to as int] == m0.stacks[to as int]);
        self.add_piece(to, piece);
    }

    /// `action` may be played (see `can_do`).
    pub fn can_play(&self, action: Action) -> (r: bool)
        requires
            self.wf(),
            action.wf(),
        ensures
            r == can_do(self@, action),
    {
        proof {
            self.lemma_wf_model();
        }
        if self.turn_num == usize::MAX {
            return false;
        }
        match action.kind() {
            ActionKind::Place(t, p) => {
                let c = self.color().index();
                let n = self.placeable[c][p.index()];
                let tot = tot_qty_of(p.index());
                self.height(t) + 1 < 255 && 0 < n && n <= tot && tot <= n + 2 && (p
                    != PieceType::Queen || self.queens[c].is_none())
            },
            ActionKind::Move(f, t) => {
                if f == t || self.height(f) == 0 || self.height(t) + 1 >= 255 {
                    return false;
                }
                let piece = self.tile(f);
                assert(self.world@[f as int] == top(self@, f as int));
                if piece.ptype() == PieceType::Queen {
                    let c = piece.color().index();
                    match self.queens[c] {
                        Some(q) => q == f,
                        None => false,
                    }
                } else {
                    true
                }
            },
            ActionKind::Pass => true,
        }
    }

    /// Play `action`, which the caller has checked for legality.
    #[verifier::spinoff_prover]
    pub fn do_action(&mut self, action: Action)
        requires
            old(self).wf(),
            can_do(old(self)@, action),
        ensures
            final(self).wf(),
            final(self)@ == do_spec(old(self)@, action),
            final(self).gametype == old(self).gametype,
    {
        let ghost m0 = self@;
        proof {
            self.lemma_wf_model();
        }
        match action.kind() {
            ActionKind::Place(tile, piece_type) => {
                let piece = self.make_next_piece(piece_type);
                assert(self.world@[tile as int].wf());
                self.add_piece(tile, piece);
                let c = self.color().index();
                let p = piece_type.index();
                let ghost m2 = self@;
                self.placeable[c][p] = self.placeable[c][p] - 1;
                assert(self@.placeable =~= m2.placeable.update(
                    c as int,
                    m2.placeable[c as int].update(p as int, (m2.placeable[c as int][p as int] - 1) as u8),
                ));
            },
            ActionKind::Move(from, to) => {
                assert(self.world@[from as int].wf());
                assert(self.world@[to as int].wf());
                self.do_move(from, to);
            },
            ActionKind::Pass => {},
        }
        let ghost m1 = self@;
        self.turn_num = self.turn_num + 1;
        self.turn_history.push(action);
        assert(forall|i: int| 0 <= i < self.turn_history@.len() ==> (#[trigger] self.turn_history@[i]).wf()) by {
            assert forall|i: int| 0 <= i < self.turn_history@.len() implies (#[trigger] self.turn_history@[i]).wf() by {
                if i < m1.history.len() {
                    assert(self.turn_history@[i] == m1.history[i]);
                }
            }
        }
        self.zobrist_hash = self.zobrist_hash ^ PLAYER_HASH;
        self.zobrist_history.push(self.zobrist_hash);
        assert(self@.stacks =~= do_spec(m0, action).stacks);
        assert(self@.placeable =~= do_spec(m0, action).placeable);
    }

    /// Take back the last action played.
    #[verifier::spinoff_prover]
    pub fn undo_action(&mut self)
        requires
            old(self).wf(),
            can_undo(old(self)@),
        ensures
            final(self).wf(),
            final(self)@ == undo_spec(old(self)@),
            final(self).gametype == old(self).gametype,
    {
        let ghost m = self@;
        proof {
            self.lemma_wf_model();
        }
        let action = self.turn_history.pop().unwrap();
        assert(action == m.history.last());
        assert(action.wf());
        self.turn_num = self.turn_num - 1;
        self.zobrist_hash = self.zobrist_hash ^ PLAYER_HASH;
        let _ = self.zobrist_history.pop();
        let ghost m0 = self@;
        assert(m0.history =~= m.history.drop_last());
        assert(m0.hash_history =~= (if m.hash_history.len() > 0 {
            m.hash_history.drop_last()
        } else {
            m.hash_history
        }));
        match action.kind() {
            ActionKind::Place(tile, piece_type) => {
                assert(self.world@[tile as int].wf());
                self.remove_piece(tile);
                let c = self.color().index();
                let p = piece_type.index();
                let ghost m2 = self@;
                self.placeable[c][p] = self.placeable[c][p] + 1;
                assert(self@.placeable =~= m2.placeable.update(
                    c as int,
                    m2.placeable[c as int].update(p as int, (m2.placeable[c as int][p as int] + 1) as u8),
                ));
            },
            ActionKind::Move(from, to) => {
                assert(self.world@[from as int].wf());
                assert(self.world@[to as int].wf());
                self.do_move(to, from);
            },
            ActionKind::Pass => {},
        }
        assert(self@.stacks =~= undo_spec(m).stacks);
        assert(self@.placeable =~= undo_spec(m).placeable);
    }

    /// The concrete representation agrees with itself: sizes of the arrays,
    /// heights equal stack sizes, a tile without a top piece has no buried
    /// pieces, and each player's occupied tiles are exactly the tiles that
    /// player's pieces top, without repetition.
    pub open spec fn wf(&self) -> bool {
        &&& self.world@.len() == GRID_SIZE
        &&& self.height@.len() == GRID_SIZE
        &&& self.zobrist_table@.len() == 2 * GRID_SIZE
        &&& forall|i: int|
            0 <= i < self.underworld@.len() ==> (#[trigger] self.underworld@[i]).tile < GRID_SIZE
                && self.underworld@[i].piece.spec_is_some() && self.underworld@[i].piece.wf()
                && numbered(self.underworld@[i].piece)
        &&& forall|t: int|
            0 <= t < GRID_SIZE ==> {
                &&& (#[trigger] self.world@[t]).wf()
                &&& numbered(self.world@[t])
                &&& self.height@[t] < 255
                &&& self.height@[t] == stack_of(self.world@, self.underworld@, t).len()
                &&& (!self.world@[t].spec_is_some() ==> under_at(self.underworld@, t).len() == 0)
            }
        &&& forall|i: int| 0 <= i < self.turn_history@.len() ==> (#[trigger] self.turn_history@[i]).wf()
        &&& forall|c: int| 0 <= c < 2 ==> (#[trigger] self.queens[c] matches Some(q) ==> q < GRID_SIZE)
        &&& forall|c: int|
            0 <= c < 2 ==> (#[trigger] self.occupied_tiles[c]).occupants@.no_duplicates()
        &&& forall|c: int, t: Tile|
            0 <= c < 2 ==> (#[trigger] self.occupied_tiles[c].occupants@.contains(t) <==> (t
                < GRID_SIZE && self.world@[t as int].spec_is_some() && color_index(
                self.world@[t as int].spec_color(),
            ) == c))
    }
}

} // verus!
