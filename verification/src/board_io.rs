//! Reading and writing positions and moves in the notation of the Universal
//! Hive Protocol: a piece is its color letter, its type letter and, for the
//! types a player has several of, its number (`wQ`, `bA2`); a destination is
//! a piece, or a piece with a direction mark before (`-wQ`, `/wQ`, `\wQ`:
//! west, south-west, north-west of it) or after (`wQ-`, `wQ/`, `wQ\`: east,
//! north-east, south-east of it).

use vstd::prelude::*;
use vstd::string::{StringExecFns, StrSliceExecFns};
use crate::action::{Action, ActionKind};
use crate::board::{Board, BoardModel, GameResult, top, next_piece, tot_qty, tot_qty_of, color_of_turn, game_result_spec, is_new_board, can_do, can_undo, do_spec, initial_placeable};
use crate::movegen::{moves_spec, few_pieces, all_gen_ok, gen_ok, mover};
use crate::piece::{Color, Piece, color_index};
use crate::piece_type::{PieceType, pct_name, pct_index, pct_from_char};
use crate::tile::{step, dir_at, spec_opposite, Direction, Tile, GRID_SIZE, TILE_ZERO, tile_add};
use crate::uhp::UhpError;

verus! {

/// `String::push`: appends the character `c`.
#[verifier::external_body]
fn push_char(s: &mut String, c: char)
    ensures
        final(s)@ == old(s)@.push(c),
{
    s.push(c);
}

/// Appends the character `c`.
pub fn push_char_pub(s: &mut String, c: char)
    ensures
        final(s)@ == old(s)@.push(c),
{
    push_char(s, c);
}

/// Piece types a player has several of carry a number in their name.
pub open spec fn is_numbered(p: PieceType) -> bool {
    p == PieceType::Ant || p == PieceType::Grasshopper || p == PieceType::Beetle || p
        == PieceType::Spider
}

/// ASCII upper case of a letter.
pub open spec fn upper_ascii(c: char) -> char {
    if 'a' <= c && c <= 'z' {
        ((c as u32) - 32) as char
    } else {
        c
    }
}

/// The decimal digit of `n`, for `0 <= n < 10`.
pub open spec fn digit_char(n: int) -> char {
    (48 + n) as char
}

/// `w` or `b`.
pub open spec fn color_char(c: Color) -> char {
    if c == Color::White {
        'w'
    } else {
        'b'
    }
}

/// The notation of a piece: color letter, upper-case type letter, number
/// for numbered types; `??` for no piece.
pub open spec fn piece_name_spec(p: Piece) -> Seq<char> {
    if !p.spec_is_some() {
        seq!['?', '?']
    } else {
        let base = seq![color_char(p.spec_color()), upper_ascii(pct_name(p.spec_ptype())[0])];
        if is_numbered(p.spec_ptype()) {
            base.push(digit_char(p.spec_num() as int))
        } else {
            base
        }
    }
}

/// The notation of the piece on top of tile `t`, `??` if it is free.
pub open spec fn name_at(m: BoardModel, t: int) -> Seq<char> {
    if m.stacks[t].len() > 0 {
        piece_name_spec(top(m, t))
    } else {
        seq!['?', '?']
    }
}

/// Mark written before a piece for the tile in direction `d` of it.
pub open spec fn prefix_name(d: Direction) -> Seq<char> {
    match d {
        Direction::SW => seq!['/'],
        Direction::W => seq!['-'],
        Direction::NW => seq!['\\'],
        _ => Seq::empty(),
    }
}

/// Mark written after a piece for the tile in direction `d` of it.
pub open spec fn suffix_name(d: Direction) -> Seq<char> {
    match d {
        Direction::SE => seq!['\\'],
        Direction::E => seq!['-'],
        Direction::NE => seq!['/'],
        _ => Seq::empty(),
    }
}

/// Names `tile` by the first of its neighbours, from the `i`-th on, that
/// holds a piece and is not `origin`; `??` if there is none.
pub open spec fn tile_name_from(m: BoardModel, origin: int, tile: int, i: int) -> Seq<char>
    decreases 6 - i,
{
    if i >= 6 || i < 0 {
        seq!['?', '?']
    } else {
        let d = dir_at(i);
        let adj = step(tile, d);
        if m.stacks[adj].len() > 0 && adj != origin {
            prefix_name(spec_opposite(d)) + piece_name_spec(top(m, adj)) + suffix_name(
                spec_opposite(d),
            )
        } else {
            tile_name_from(m, origin, tile, i + 1)
        }
    }
}

/// The notation of `tile` as the destination of a piece leaving `origin`:
/// the piece on it, or a neighbouring piece with a direction mark.
pub open spec fn tile_name_spec(m: BoardModel, origin: int, tile: int) -> Seq<char> {
    if m.stacks[tile].len() > 0 {
        piece_name_spec(top(m, tile))
    } else {
        tile_name_from(m, origin, tile, 0)
    }
}

/// The notation of `a` in position `m`: the moving or placed piece, then,
/// after the first ply, a space and the destination.
pub open spec fn action_string(m: BoardModel, a: Action) -> Seq<char> {
    match a.spec_kind() {
        ActionKind::Pass => seq!['p', 'a', 's', 's'],
        ActionKind::Move(s, e) => if m.turn_num == 0 {
            name_at(m, s as int)
        } else {
            name_at(m, s as int) + seq![' '] + tile_name_spec(m, s as int, e as int)
        },
        ActionKind::Place(t, p) => if m.turn_num == 0 {
            piece_name_spec(next_piece(m, p))
        } else {
            piece_name_spec(next_piece(m, p)) + seq![' '] + tile_name_spec(
                m,
                GRID_SIZE + 1,
                t as int,
            )
        },
    }
}

/// `a` can be written in position `m`: its tiles are on the grid, and a
/// placed piece type still has a piece in hand to name.
pub open spec fn can_name(m: BoardModel, a: Action) -> bool {
    &&& a.wf()
    &&& match a.spec_kind() {
        ActionKind::Place(_, p) => {
            let n = m.placeable[color_index(color_of_turn(m.turn_num))][pct_index(p)];
            n <= tot_qty(pct_index(p)) && tot_qty(pct_index(p)) <= n + 2
        },
        _ => true,
    }
}

/// The decimal digits of `n`.
pub open spec fn decimal(n: nat) -> Seq<char>
    decreases n,
{
    if n < 10 {
        seq![digit_char(n as int)]
    } else {
        decimal(n / 10).push(digit_char((n % 10) as int))
    }
}

/// Appends the decimal digits of `n` to `out`.
pub fn push_decimal(out: &mut String, n: usize)
    ensures
        final(out)@ == old(out)@ + decimal(n as nat),
    decreases n,
{
    if n >= 10 {
        push_decimal(out, n / 10);
    }
    push_char(out, digit((n % 10) as u32));
}

/// The decimal digit of `n`.
pub fn digit(n: u32) -> (r: char)
    requires
        n < 10,
    ensures
        r == digit_char(n as int),
{
    match n {
        0 => '0',
        1 => '1',
        2 => '2',
        3 => '3',
        4 => '4',
        5 => '5',
        6 => '6',
        7 => '7',
        8 => '8',
        _ => '9',
    }
}

/// The parts of `s` between the separators `sep` (at least one part).
pub open spec fn split(s: Seq<char>, sep: char) -> Seq<Seq<char>>
    decreases s.len(),
{
    if s.len() == 0 {
        seq![Seq::empty()]
    } else {
        let r = split(s.drop_last(), sep);
        if s.last() == sep {
            r.push(Seq::empty())
        } else {
            r.update(r.len() - 1, r.last().push(s.last()))
        }
    }
}

/// A direction mark at the start or end of a destination, and what is left
/// of it. The start is tried for `\`, then the end for `/`, `-`, `\`, then
/// the start for `/` and `-`.
pub open spec fn dir_parse(s: Seq<char>) -> (Seq<char>, Option<Direction>) {
    if s.len() == 0 {
        (s, None)
    } else if s[0] == '\\' {
        (s.drop_first(), Some(Direction::NW))
    } else if s.last() == '/' {
        (s.drop_last(), Some(Direction::NE))
    } else if s.last() == '-' {
        (s.drop_last(), Some(Direction::E))
    } else if s.last() == '\\' {
        (s.drop_last(), Some(Direction::SE))
    } else if s[0] == '/' {
        (s.drop_first(), Some(Direction::SW))
    } else if s[0] == '-' {
        (s.drop_first(), Some(Direction::W))
    } else {
        (s, None)
    }
}

/// The color of a color letter.
pub open spec fn color_of_char(c: char) -> Option<Color> {
    if c == 'w' {
        Some(Color::White)
    } else if c == 'b' {
        Some(Color::Black)
    } else {
        None
    }
}

/// The value of a decimal digit.
pub open spec fn digit_val(c: char) -> Option<int> {
    if '0' <= c && c <= '9' {
        Some(c as int - 48)
    } else {
        None
    }
}

/// A piece name with an optional direction mark: color letter, type letter
/// (either case), a digit for numbered types and nothing more for the
/// others; characters after the digit are ignored.
pub open spec fn parse_piece_spec(s: Seq<char>) -> Option<(Piece, Option<Direction>)> {
    let (r, d) = dir_parse(s);
    if r.len() < 2 {
        None
    } else {
        match (color_of_char(r[0]), pct_from_char(r[1])) {
            (Some(c), Some(p)) => if is_numbered(p) {
                if r.len() < 3 {
                    None
                } else {
                    match digit_val(r[2]) {
                        Some(n) => Some((Piece::spec_make(c, p, n as u8), d)),
                        None => None,
                    }
                }
            } else if r.len() > 2 {
                None
            } else {
                Some((Piece::spec_make(c, p, 1), d))
            },
            _ => None,
        }
    }
}

/// A character outside ASCII.
pub open spec fn non_ascii(c: char) -> bool {
    c as u32 >= 128
}

/// Reading a piece name from `s` fails hard: looking at its first or last
/// character where that is not ASCII, or a number other than 1 to 3.
pub open spec fn piece_parse_fails_hard(s: Seq<char>) -> bool {
    ||| (s.len() > 0 && (non_ascii(s[0]) || (s[0] != '\\' && non_ascii(s.last()))))
    ||| {
        let (r, d) = dir_parse(s);
        &&& r.len() >= 3
        &&& color_of_char(r[0]) is Some
        &&& pct_from_char(r[1]) matches Some(p) && is_numbered(p)
        &&& digit_val(r[2]) matches Some(n) && (n == 0 || n > 3)
    }
}

/// The first tile of `s` whose top piece is `p`.
pub open spec fn find_first(b: Board, s: Seq<Tile>, p: Piece) -> Option<Tile>
    decreases s.len(),
{
    if s.len() == 0 {
        None
    } else if b.world@[s[0] as int] == p {
        Some(s[0])
    } else {
        find_first(b, s.drop_first(), p)
    }
}

/// The tile of piece `p`: the first of White's tiles, then of Black's,
/// with `p` on top.
pub open spec fn find_piece_spec(b: Board, p: Piece) -> Option<Tile> {
    find_first(b, b.occupied_tiles[0].occupants@ + b.occupied_tiles[1].occupants@, p)
}

/// The tile named by `s`: a piece, moved one step in the direction of its
/// mark if it has one.
pub open spec fn parse_tile_spec(b: Board, s: Seq<char>) -> Option<Tile> {
    match parse_piece_spec(s) {
        None => None,
        Some((p, d)) => match find_piece_spec(b, p) {
            None => None,
            Some(t) => Some(
                match d {
                    Some(d) => step(t as int, d) as u16,
                    None => t,
                },
            ),
        },
    }
}

/// The action written `s`: `pass`; on the first ply a piece name alone (put
/// on the first tile); later a piece name and a destination, a movement if
/// the piece is on the board and a placement if not.
pub open spec fn parse_action_spec(b: Board, s: Seq<char>) -> Option<Action> {
    if s == seq!['p', 'a', 's', 's'] {
        Some(Action::spec_from_kind(ActionKind::Pass))
    } else {
        let toks = split(s, ' ');
        match parse_piece_spec(toks[0]) {
            None => None,
            Some((piece, _)) => if b.turn_history@.len() == 0 {
                if toks.len() != 1 {
                    None
                } else {
                    Some(Action::spec_from_kind(ActionKind::Place(TILE_ZERO, piece.spec_ptype())))
                }
            } else if toks.len() != 2 {
                None
            } else {
                match parse_tile_spec(b, toks[1]) {
                    None => None,
                    Some(end) => match find_piece_spec(b, piece) {
                        Some(start) => Some(Action::spec_from_kind(ActionKind::Move(start, end))),
                        None => Some(Action::spec_from_kind(ActionKind::Place(end, piece.spec_ptype()))),
                    },
                }
            },
        }
    }
}

/// Reading the action `s` fails hard (see `piece_parse_fails_hard`) on a
/// piece name that gets read.
pub open spec fn action_parse_fails_hard(b: Board, s: Seq<char>) -> bool {
    &&& s != seq!['p', 'a', 's', 's']
    &&& {
        let toks = split(s, ' ');
        ||| piece_parse_fails_hard(toks[0])
        ||| (parse_piece_spec(toks[0]) is Some && b.turn_history@.len() > 0 && toks.len() == 2
            && piece_parse_fails_hard(toks[1]))
    }
}

/// The expansion counts named by a game type: `Base`, then optionally `+`
/// and letters among `M`, `L`, `P`.
pub open spec fn game_type_spec(s: Seq<char>) -> Option<(u8, u8, u8)> {
    let toks = split(s, '+');
    if toks[0] != seq!['B', 'a', 's', 'e'] {
        None
    } else {
        let o = if toks.len() > 1 {
            toks[1]
        } else {
            Seq::empty()
        };
        Some(
            (
                if o.contains('M') {
                    1u8
                } else {
                    0u8
                },
                if o.contains('L') {
                    1u8
                } else {
                    0u8
                },
                if o.contains('P') {
                    1u8
                } else {
                    0u8
                },
            ),
        )
    }
}

/// Every part of a split is shorter than the text, and there is one.
pub proof fn lemma_split_len(s: Seq<char>, sep: char)
    ensures
        split(s, sep).len() >= 1,
        split(s, sep).len() <= s.len() + 1,
    decreases s.len(),
{
    if s.len() > 0 {
        lemma_split_len(s.drop_last(), sep);
    }
}

/// The characters of `s`.
pub fn chars_of(s: &str) -> (r: Vec<char>)
    ensures
        r@ == s@,
{
    let n = s.unicode_len();
    let mut r: Vec<char> = Vec::new();
    let mut i: usize = 0;
    while i < n
        invariant
            n == s@.len(),
            0 <= i <= n,
            r@ == s@.subrange(0, i as int),
        decreases n - i,
    {
        r.push(s.get_char(i));
        i += 1;
        assert(r@ =~= s@.subrange(0, i as int));
    }
    assert(s@.subrange(0, i as int) =~= s@);
    r
}

/// The string of the characters `v`.
pub fn string_of(v: &Vec<char>) -> (r: String)
    ensures
        r@ == v@,
{
    let mut r = String::new();
    let mut i: usize = 0;
    while i < v.len()
        invariant
            0 <= i <= v@.len(),
            r@ == v@.subrange(0, i as int),
        decreases v@.len() - i,
    {
        push_char(&mut r, v[i]);
        i += 1;
        assert(r@ =~= v@.subrange(0, i as int));
    }
    assert(v@.subrange(0, i as int) =~= v@);
    r
}

/// The parts of `s` between the separators `sep`.
pub fn split_chars(s: &Vec<char>, sep: char) -> (r: Vec<Vec<char>>)
    ensures
        r@.len() == split(s@, sep).len(),
        forall|i: int| 0 <= i < r@.len() ==> #[trigger] r@[i]@ == split(s@, sep)[i],
{
    let mut r: Vec<Vec<char>> = Vec::new();
    r.push(Vec::new());
    let mut i: usize = 0;
    assert(s@.subrange(0, 0) =~= Seq::<char>::empty());
    while i < s.len()
        invariant
            0 <= i <= s@.len(),
            r@.len() == split(s@.subrange(0, i as int), sep).len(),
            r@.len() >= 1,
            forall|j: int| 0 <= j < r@.len() ==> #[trigger] r@[j]@ == split(s@.subrange(0, i as int), sep)[j],
        decreases s@.len() - i,
    {
        let c = s[i];
        let ghost pre = s@.subrange(0, i as int);
        assert(s@.subrange(0, i + 1).drop_last() =~= pre);
        assert(s@.subrange(0, i + 1).last() == c);
        if c == sep {
            r.push(Vec::new());
        } else {
            let last = r.len() - 1;
            let mut part = r.pop().unwrap();
            part.push(c);
            r.push(part);
            assert(r@[last as int]@ =~= split(pre, sep).last().push(c));
        }
        i += 1;
        assert forall|j: int| 0 <= j < r@.len() implies #[trigger] r@[j]@ == split(s@.subrange(0, i as int), sep)[j] by {
        }
    }
    assert(s@.subrange(0, i as int) =~= s@);
    r
}

/// The name of a color.
pub open spec fn color_name(c: Color) -> Seq<char> {
    if c == Color::White {
        seq!['W', 'h', 'i', 't', 'e']
    } else {
        seq!['B', 'l', 'a', 'c', 'k']
    }
}

/// The state of the game: `NotStarted` before the first ply, then the
/// result.
pub open spec fn result_name(m: BoardModel) -> Seq<char> {
    if m.history.len() == 0 {
        seq!['N', 'o', 't', 'S', 't', 'a', 'r', 't', 'e', 'd']
    } else {
        match game_result_spec(m) {
            GameResult::InProgress => seq!['I', 'n', 'P', 'r', 'o', 'g', 'r', 'e', 's', 's'],
            GameResult::Winner(Color::White) => seq!['W', 'h', 'i', 't', 'e', 'W', 'i', 'n', 's'],
            GameResult::Winner(Color::Black) => seq!['B', 'l', 'a', 'c', 'k', 'W', 'i', 'n', 's'],
            GameResult::Draw => seq!['D', 'r', 'a', 'w'],
        }
    }
}

/// The turn: the quoted name of the player to move and, in brackets, the
/// number of the full turn.
pub open spec fn turn_name(m: BoardModel) -> Seq<char> {
    seq!['"'] + color_name(color_of_turn(m.turn_num)) + seq!['"', '['] + decimal(
        (m.history.len() / 2 + 1) as nat,
    ) + seq![']']
}

/// The notations of the actions `h` played from `m`, each followed by `;`.
pub open spec fn replay_log(m: BoardModel, h: Seq<Action>) -> Seq<char>
    decreases h.len(),
{
    if h.len() == 0 {
        Seq::empty()
    } else {
        action_string(m, h[0]) + seq![';'] + replay_log(do_spec(m, h[0]), h.drop_first())
    }
}

/// The actions `h` can be played one after the other from `m`, and named.
pub open spec fn replay_ok(m: BoardModel, h: Seq<Action>) -> bool
    decreases h.len(),
{
    h.len() == 0 || (can_do(m, h[0]) && can_name(m, h[0]) && replay_ok(do_spec(m, h[0]), h.drop_first()))
}

/// The move log of a game: the notations of its actions, separated by `;`.
pub open spec fn game_log(m: BoardModel, h: Seq<Action>) -> Seq<char> {
    let l = replay_log(m, h);
    if l.len() > 0 && l.last() == ';' {
        l.drop_last()
    } else {
        l
    }
}

/// The position at the start of a game with `m` mosquitoes, `l` ladybugs
/// and `p` pillbugs per player.
pub open spec fn fresh_model(m: u8, l: u8, p: u8) -> BoardModel {
    BoardModel {
        stacks: Seq::new(GRID_SIZE as nat, |t: int| Seq::empty()),
        placeable: seq![initial_placeable(m, l, p), initial_placeable(m, l, p)],
        queens: seq![None, None],
        turn_num: 0,
        history: Seq::empty(),
        hash: 0,
        hash_history: Seq::empty(),
        table: Seq::empty(),
    }
}

/// Two models with the same pieces, hands, queens and ply count.
pub open spec fn same_position(a: BoardModel, b: BoardModel) -> bool {
    &&& a.stacks == b.stacks
    &&& a.placeable == b.placeable
    &&& a.queens == b.queens
    &&& a.turn_num == b.turn_num
}

/// The game record: game type, state, turn and, once started, the log of
/// the game replayed from its start.
pub open spec fn game_string_spec(gametype: Seq<char>, m: BoardModel) -> Seq<char> {
    let head = gametype + seq![';'] + result_name(m) + seq![';'] + turn_name(m);
    if m.history.len() == 0 {
        head
    } else {
        match game_type_spec(gametype) {
            Some((a, b, c)) => head + seq![';'] + game_log(fresh_model(a, b, c), m.history),
            None => head,
        }
    }
}

/// The notations of the actions `s` in position `m`, separated by `;`.
pub open spec fn join_actions(m: BoardModel, s: Seq<Action>) -> Seq<char>
    decreases s.len(),
{
    if s.len() == 0 {
        Seq::empty()
    } else if s.len() == 1 {
        action_string(m, s[0])
    } else {
        join_actions(m, s.drop_last()) + seq![';'] + action_string(m, s.last())
    }
}

/// No count of pieces in hand exceeds the full count of its type.
pub open spec fn hand_ok(m: BoardModel) -> bool {
    forall|c: int, p: int| 0 <= c < 2 && 0 <= p < 8 ==> #[trigger] m.placeable[c][p] <= tot_qty(p)
}

/// One step of reading a game record: in position `b0` the move written
/// `mv` reads as `a`, which can be played and gives position `b1`.
pub open spec fn replay_step(b0: Board, b1: Board, mv: Seq<char>, a: Action) -> bool {
    &&& b0.wf()
    &&& !action_parse_fails_hard(b0, mv)
    &&& parse_action_spec(b0, mv) == Some(a)
    &&& can_do(b0@, a)
    &&& b1.wf()
    &&& b1@ == do_spec(b0@, a)
    &&& b1.gametype == b0.gametype
}

/// `boards` are the positions of a game whose moves, written `moves`, read
/// as `acts`.
pub open spec fn replay_chain(boards: Seq<Board>, moves: Seq<Seq<char>>, acts: Seq<Action>) -> bool {
    &&& boards.len() == moves.len() + 1
    &&& acts.len() == moves.len()
    &&& forall|i: int|
        0 <= i < moves.len() ==> replay_step(boards[i], boards[i + 1], moves[i], #[trigger] acts[i])
}

/// The move written `mv` cannot be read or played in position `b`.
pub open spec fn move_fails(b: Board, mv: Seq<char>) -> bool {
    ||| action_parse_fails_hard(b, mv)
    ||| parse_action_spec(b, mv) is None
    ||| !can_do(b@, parse_action_spec(b, mv)->0)
}

/// Reading the game record `s` gives `b`: the game type names the
/// expansions, and the moves after the state and turn fields, read and
/// played one after the other from the start, lead to `b`.
pub open spec fn game_read(s: Seq<char>, b: Board) -> bool {
    let toks = split(s, ';');
    &&& game_type_spec(toks[0]) is Some
    &&& toks.len() != 2
    &&& game_type_spec(toks[0]) matches Some((x, y, z)) && if toks.len() < 3 {
        is_new_board(b, x, y, z)
    } else {
        exists|boards: Seq<Board>, acts: Seq<Action>|
            #[trigger] replay_chain(boards, toks.subrange(3, toks.len() as int), acts)
                && is_new_board(boards[0], x, y, z) && b == boards.last()
    }
}

/// Reading the game record `s` fails with `e`: an unknown game type, a
/// missing turn field, or a move that cannot be read or played.
pub open spec fn game_read_error(s: Seq<char>, e: UhpError) -> bool {
    let toks = split(s, ';');
    match game_type_spec(toks[0]) {
        None => e matches UhpError::InvalidGameType(x) && x@ == toks[0],
        Some((x, y, z)) => {
            ||| (toks.len() == 2 && (e matches UhpError::InvalidGameString(m) && m@
                == "missing turn string"@))
            ||| (toks.len() >= 3 && exists|k: int, boards: Seq<Board>, acts: Seq<Action>|
                0 <= k < toks.len() - 3 && #[trigger] replay_chain(boards, toks.subrange(3, 3 + k), acts)
                    && is_new_board(boards[0], x, y, z) && move_fails(boards.last(), toks[3 + k])
                    && (e matches UhpError::InvalidMove(m) && m@ == toks[3 + k]))
        },
    }
}

/// Replaying from models in the same position gives the same log.
pub proof fn lemma_replay_same(a: BoardModel, b: BoardModel, h: Seq<Action>)
    requires
        same_position(a, b),
    ensures
        replay_log(a, h) == replay_log(b, h),
        replay_ok(a, h) == replay_ok(b, h),
    decreases h.len(),
{
    if h.len() > 0 {
        lemma_replay_same(do_spec(a, h[0]), do_spec(b, h[0]), h.drop_first());
        match h[0].spec_kind() {
            ActionKind::Move(s, e) => lemma_tile_name_same(a, b, s as int, e as int, 0),
            ActionKind::Place(t, _) => lemma_tile_name_same(a, b, GRID_SIZE + 1, t as int, 0),
            ActionKind::Pass => {},
        }
    }
}

/// Naming a destination looks only at the pieces on the board.
pub proof fn lemma_tile_name_same(a: BoardModel, b: BoardModel, origin: int, tile: int, i: int)
    requires
        a.stacks == b.stacks,
    ensures
        tile_name_from(a, origin, tile, i) == tile_name_from(b, origin, tile, i),
    decreases 6 - i,
{
    if 0 <= i < 6 {
        lemma_tile_name_same(a, b, origin, tile, i + 1);
    }
}

impl PieceType {
    /// Piece types a player has several of carry a number in their name.
    pub fn is_numbered(self) -> (r: bool)
        ensures
            r == is_numbered(self),
    {
        match self {
            PieceType::Ant | PieceType::Grasshopper | PieceType::Beetle | PieceType::Spider => true,
            _ => false,
        }
    }

    /// The upper-case letter of this piece type.
    pub fn to_upper_char(self) -> (r: char)
        ensures
            r == upper_ascii(pct_name(self)[0]),
    {
        match self {
            PieceType::Queen => 'Q',
            PieceType::Grasshopper => 'G',
            PieceType::Spider => 'S',
            PieceType::Ant => 'A',
            PieceType::Beetle => 'B',
            PieceType::Mosquito => 'M',
            PieceType::Ladybug => 'L',
            PieceType::Pillbug => 'P',
        }
    }
}

impl Direction {
    /// The direction mark at the start or end of `s` (see `dir_parse`):
    /// the mark, and the bounds of what is left.
    pub fn parse(s: &[char]) -> (r: (usize, usize, Option<Direction>))
        ensures
            r.0 <= r.1 <= s@.len(),
            (s@.subrange(r.0 as int, r.1 as int), r.2) == dir_parse(s@),
    {
        let n = s.len();
        if n == 0 {
            assert(s@.subrange(0, 0) =~= s@);
            return (0, 0, None);
        }
        let first = s[0];
        let last = s[n - 1];
        assert(s@.subrange(1, n as int) =~= s@.drop_first());
        assert(s@.subrange(0, n - 1) =~= s@.drop_last());
        assert(s@.subrange(0, n as int) =~= s@);
        if first == '\\' {
            (1, n, Some(Direction::NW))
        } else if last == '/' {
            (0, n - 1, Some(Direction::NE))
        } else if last == '-' {
            (0, n - 1, Some(Direction::E))
        } else if last == '\\' {
            (0, n - 1, Some(Direction::SE))
        } else if first == '/' {
            (1, n, Some(Direction::SW))
        } else if first == '-' {
            (1, n, Some(Direction::W))
        } else {
            (0, n, None)
        }
    }

    /// Mark written after a piece for the tile in this direction of it.
    pub fn suffix_name(self) -> (r: &'static str)
        ensures
            r@ == suffix_name(self),
    {
        proof {
            reveal_strlit("\\");
            reveal_strlit("-");
            reveal_strlit("/");
            reveal_strlit("");
        }
        match self {
            Direction::SE => "\\",
            Direction::E => "-",
            Direction::NE => "/",
            _ => "",
        }
    }

    /// Mark written before a piece for the tile in this direction of it.
    pub fn prefix_name(self) -> (r: &'static str)
        ensures
            r@ == prefix_name(self),
    {
        proof {
            reveal_strlit("\\");
            reveal_strlit("-");
            reveal_strlit("/");
            reveal_strlit("");
        }
        match self {
            Direction::SW => "/",
            Direction::W => "-",
            Direction::NW => "\\",
            _ => "",
        }
    }
}

impl Color {
    /// The color of a color letter.
    pub fn parse(c: char) -> (r: Option<Color>)
        ensures
            r == color_of_char(c),
    {
        match c {
            'w' => Some(Color::White),
            'b' => Some(Color::Black),
            _ => None,
        }
    }
}

/// The value of a decimal digit.
fn to_digit(c: char) -> (r: Option<u8>)
    ensures
        r matches Some(n) ==> digit_val(c) == Some(n as int),
        r is None ==> digit_val(c) is None,
{
    if '0' <= c && c <= '9' {
        Some((c as u32 - 48) as u8)
    } else {
        None
    }
}

/// `v` spells `lit`.
pub fn eq_lit(v: &[char], lit: &str) -> (r: bool)
    ensures
        r == (v@ == lit@),
{
    let n = lit.unicode_len();
    if v.len() != n {
        return false;
    }
    let mut i: usize = 0;
    while i < n
        invariant
            n == lit@.len(),
            v@.len() == n,
            0 <= i <= n,
            forall|j: int| 0 <= j < i ==> v@[j] == lit@[j],
        decreases n - i,
    {
        if v[i] != lit.get_char(i) {
            return false;
        }
        i += 1;
    }
    assert(v@ =~= lit@);
    true
}

/// `c` occurs in `v`.
fn contains_char(v: &[char], c: char) -> (r: bool)
    ensures
        r == v@.contains(c),
{
    let mut i: usize = 0;
    while i < v.len()
        invariant
            0 <= i <= v@.len(),
            forall|j: int| 0 <= j < i ==> v@[j] != c,
        decreases v@.len() - i,
    {
        if v[i] == c {
            assert(v@[i as int] == c);
            return true;
        }
        i += 1;
    }
    false
}

impl Board {
    /// Appends the notation of `p` to `out`.
    fn piece_name(&self, p: Piece, out: &mut String)
        ensures
            final(out)@ == old(out)@ + piece_name_spec(p),
    {
        if !p.is_some() {
            proof {
                reveal_strlit("??");
            }
            out.append("??");
            return;
        }
        push_char(out, p.color().to_char());
        push_char(out, p.ptype().to_upper_char());
        if p.ptype().is_numbered() {
            let n = p.num();
            assert(n < 4);
            push_char(out, digit(n as u32));
        }
        assert(out@ =~= old(out)@ + piece_name_spec(p));
    }

    /// Appends the notation of `tile` as the destination of a piece leaving
    /// `origin`.
    fn tile_name(&self, origin: Tile, tile: Tile, out: &mut String)
        requires
            self.wf(),
            tile < GRID_SIZE,
        ensures
            final(out)@ == old(out)@ + tile_name_spec(self@, origin as int, tile as int),
    {
        proof {
            self.lemma_wf_model();
        }
        let piece = self.tile(tile);
        if piece.is_some() {
            self.piece_name(piece, out);
            return;
        }
        let dirs = Direction::all();
        let mut i: usize = 0;
        while i < 6
            invariant
                self.wf(),
                0 <= i <= 6,
                tile < GRID_SIZE,
                forall|j: int| 0 <= j < 6 ==> dirs@[j] == dir_at(j),
                self@.stacks[tile as int].len() == 0,
                out@ == old(out)@,
                tile_name_from(self@, origin as int, tile as int, i as int) == tile_name_spec(
                    self@,
                    origin as int,
                    tile as int,
                ),
            decreases 6 - i,
        {
            let dir = dirs[i];
            let adj_tile = tile_add(tile, dir);
            let adj = self.tile(adj_tile);
            if adj.is_some() && adj_tile != origin {
                let opp = dir.opposite();
                out.append(opp.prefix_name());
                self.piece_name(adj, out);
                out.append(opp.suffix_name());
                return;
            }
            i += 1;
        }
        proof {
            reveal_strlit("??");
        }
        out.append("??");
    }

    /// The notation of `m` in this position.
    pub fn action_to_string(&self, m: Action) -> (r: String)
        requires
            self.wf(),
            can_name(self@, m),
        ensures
            r@ == action_string(self@, m),
    {
        proof {
            self.lemma_wf_model();
        }
        let mut out = String::new();
        match m.kind() {
            ActionKind::Move(start, _) => {
                let p = self.tile(start);
                self.piece_name(p, &mut out);
            },
            ActionKind::Place(_, pct) => {
                let p = self.make_next_piece(pct);
                self.piece_name(p, &mut out);
            },
            ActionKind::Pass => {
                proof {
                    reveal_strlit("pass");
                }
                return String::from_str("pass");
            },
        }
        if self.turn_num == 0 {
            return out;
        }
        push_char(&mut out, ' ');
        match m.kind() {
            ActionKind::Move(start, end) => self.tile_name(start, end, &mut out),
            ActionKind::Place(tile, _) => self.tile_name(1025, tile, &mut out),
            ActionKind::Pass => {},
        }
        out
    }

    /// Reads a piece name with an optional direction mark (see
    /// `parse_piece_spec`).
    fn parse_piece_direction(&self, piece_string: &[char]) -> (r: Option<(Piece, Option<Direction>)>)
        requires
            !piece_parse_fails_hard(piece_string@),
        ensures
            r == parse_piece_spec(piece_string@),
    {
        let (a, b, dir) = Direction::parse(piece_string);
        let ghost rest = piece_string@.subrange(a as int, b as int);
        if b - a < 2 {
            return None;
        }
        let color = match Color::parse(piece_string[a]) {
            Some(c) => c,
            None => return None,
        };
        let pct = match PieceType::from_char(piece_string[a + 1]) {
            Some(p) => p,
            None => return None,
        };
        assert(rest[0] == piece_string@[a as int]);
        assert(rest[1] == piece_string@[a + 1]);
        if pct.is_numbered() {
            if b - a < 3 {
                return None;
            }
            assert(rest[2] == piece_string@[a + 2]);
            let num = match to_digit(piece_string[a + 2]) {
                Some(n) => n,
                None => return None,
            };
            Some((Piece::make(color, pct, num), dir))
        } else if b - a > 2 {
            None
        } else {
            Some((Piece::make(color, pct, 1), dir))
        }
    }

    /// The tile of piece `piece` (see `find_piece_spec`).
    pub fn find_piece(&self, piece: Piece) -> (r: Option<Tile>)
        requires
            self.wf(),
        ensures
            r == find_piece_spec(*self, piece),
            r matches Some(t) ==> t < GRID_SIZE,
    {
        let ghost all = self.occupied_tiles[0].occupants@ + self.occupied_tiles[1].occupants@;
        let mut c: usize = 0;
        while c < 2
            invariant
                self.wf(),
                0 <= c <= 2,
                all == self.occupied_tiles[0].occupants@ + self.occupied_tiles[1].occupants@,
                find_piece_spec(*self, piece) == find_first(*self, if c == 0 {
                    all
                } else if c == 1 {
                    self.occupied_tiles[1].occupants@
                } else {
                    Seq::empty()
                }, piece),
            decreases 2 - c,
        {
            let list = &self.occupied_tiles[c].occupants;
            let mut i: usize = 0;
            assert(list@.subrange(0, list@.len() as int) =~= list@);
            while i < list.len()
                invariant
                    self.wf(),
                    0 <= c < 2,
                    list@ == self.occupied_tiles[c as int].occupants@,
                    0 <= i <= list@.len(),
                    find_piece_spec(*self, piece) == find_first(*self, if c == 0 {
                        list@.subrange(i as int, list@.len() as int) + self.occupied_tiles[1].occupants@
                    } else {
                        list@.subrange(i as int, list@.len() as int)
                    }, piece),
                decreases list@.len() - i,
            {
                let t = list[i];
                assert(self.occupied_tiles[c as int].occupants@.contains(t));
                let ghost rest = if c == 0 {
                    list@.subrange(i as int, list@.len() as int) + self.occupied_tiles[1].occupants@
                } else {
                    list@.subrange(i as int, list@.len() as int)
                };
                assert(rest[0] == t);
                assert(rest.drop_first() =~= if c == 0 {
                    list@.subrange(i + 1, list@.len() as int) + self.occupied_tiles[1].occupants@
                } else {
                    list@.subrange(i + 1, list@.len() as int)
                });
                if self.tile(t) == piece {
                    return Some(t);
                }
                i += 1;
            }
            proof {
                if c == 0 {
                    assert(list@.subrange(i as int, list@.len() as int) + self.occupied_tiles[1].occupants@
                        =~= self.occupied_tiles[1].occupants@);
                } else {
                    assert(list@.subrange(i as int, list@.len() as int) =~= Seq::<Tile>::empty());
                }
            }
            c += 1;
        }
        None
    }

    /// The tile named by `s` (see `parse_tile_spec`).
    fn parse_tile(&self, s: &[char]) -> (r: Option<Tile>)
        requires
            self.wf(),
            !piece_parse_fails_hard(s@),
        ensures
            r == parse_tile_spec(*self, s@),
            r matches Some(t) ==> t < GRID_SIZE,
    {
        let (end_piece, dir) = match self.parse_piece_direction(s) {
            Some(x) => x,
            None => return None,
        };
        let tile = match self.find_piece(end_piece) {
            Some(t) => t,
            None => return None,
        };
        Some(
            match dir {
                Some(d) => tile_add(tile, d),
                None => tile,
            },
        )
    }

    /// Reads the action written `s` (see `parse_action_spec`).
    fn parse_action_chars(&self, s: &Vec<char>) -> (r: Option<Action>)
        requires
            self.wf(),
            !action_parse_fails_hard(*self, s@),
        ensures
            r == parse_action_spec(*self, s@),
            r matches Some(a) ==> a.wf(),
    {
        proof {
            reveal_strlit("pass");
        }
        let is_pass = eq_lit(s.as_slice(), "pass");
        assert(is_pass == (s@ == "pass"@));
        assert("pass"@ == seq!['p', 'a', 's', 's']);
        if is_pass {
            return Some(Action::Pass());
        }
        let tokens = split_chars(s, ' ');
        proof {
            lemma_split_len(s@, ' ');
        }
        let (piece, _) = match self.parse_piece_direction(tokens[0].as_slice()) {
            Some(x) => x,
            None => return None,
        };
        if self.turn_history.len() == 0 {
            if tokens.len() != 1 {
                return None;
            }
            return Some(Action::Place(TILE_ZERO, piece.ptype()));
        }
        if tokens.len() != 2 {
            return None;
        }
        let start = self.find_piece(piece);
        let end = match self.parse_tile(tokens[1].as_slice()) {
            Some(t) => t,
            None => return None,
        };
        Some(
            match start {
                Some(start) => Action::Move(start, end),
                None => Action::Place(end, piece.ptype()),
            },
        )
    }

    /// Reads the action `move_string` (see `parse_action_spec`); an
    /// unreadable one is `InvalidMove`.
    pub fn parse_action(&self, move_string: &str) -> (r: Result<Action, UhpError>)
        requires
            self.wf(),
            !action_parse_fails_hard(*self, move_string@),
        ensures
            match r {
                Ok(a) => parse_action_spec(*self, move_string@) == Some(a) && a.wf(),
                Err(e) => parse_action_spec(*self, move_string@) is None && (e matches UhpError::InvalidMove(
                    x,
                ) && x@ == move_string@),
            },
    {
        let s = chars_of(move_string);
        match self.parse_action_chars(&s) {
            Some(a) => Ok(a),
            None => Err(UhpError::InvalidMove(move_string.to_owned())),
        }
    }

    /// Reading the piece name `s` fails hard (see `piece_parse_fails_hard`).
    fn piece_fails_hard(s: &[char]) -> (r: bool)
        ensures
            r == piece_parse_fails_hard(s@),
    {
        let n = s.len();
        if n > 0 && ((s[0] as u32) >= 128 || (s[0] != '\\' && (s[n - 1] as u32) >= 128)) {
            return true;
        }
        let (a, b, _) = Direction::parse(s);
        let ghost r = s@.subrange(a as int, b as int);
        if b - a < 3 {
            return false;
        }
        assert(r[0] == s@[a as int] && r[1] == s@[a + 1] && r[2] == s@[a + 2]);
        if Color::parse(s[a]).is_none() {
            return false;
        }
        match PieceType::from_char(s[a + 1]) {
            Some(p) => {
                if !p.is_numbered() {
                    return false;
                }
            },
            None => return false,
        }
        match to_digit(s[a + 2]) {
            Some(d) => d == 0 || d > 3,
            None => false,
        }
    }

    /// Reading the action `s` fails hard (see `action_parse_fails_hard`).
    fn action_fails_hard(&self, s: &Vec<char>) -> (r: bool)
        ensures
            r == action_parse_fails_hard(*self, s@),
    {
        proof {
            reveal_strlit("pass");
        }
        let is_pass = eq_lit(s.as_slice(), "pass");
        assert(is_pass == (s@ == "pass"@));
        assert("pass"@ == seq!['p', 'a', 's', 's']);
        if is_pass {
            return false;
        }
        let tokens = split_chars(s, ' ');
        proof {
            lemma_split_len(s@, ' ');
        }
        if Self::piece_fails_hard(tokens[0].as_slice()) {
            return true;
        }
        if tokens.len() == 2 && self.turn_history.len() > 0 {
            let ok0 = Self::piece_name_ok(tokens[0].as_slice());
            if ok0 {
                return Self::piece_fails_hard(tokens[1].as_slice());
            }
        }
        false
    }

    /// `s` reads as a piece name with an optional direction mark.
    fn piece_name_ok(s: &[char]) -> (r: bool)
        ensures
            r == parse_piece_spec(s@) is Some,
    {
        let (a, b, _) = Direction::parse(s);
        let ghost rest = s@.subrange(a as int, b as int);
        if b - a < 2 {
            return false;
        }
        assert(rest[0] == s@[a as int] && rest[1] == s@[a + 1]);
        if Color::parse(s[a]).is_none() {
            return false;
        }
        match PieceType::from_char(s[a + 1]) {
            Some(p) => {
                if p.is_numbered() {
                    if b - a < 3 {
                        return false;
                    }
                    assert(rest[2] == s@[a + 2]);
                    to_digit(s[a + 2]).is_some()
                } else {
                    b - a == 2
                }
            },
            None => false,
        }
    }

    /// Reading the action `move_string` fails hard (see
    /// `action_parse_fails_hard`): `parse_action` must not be given it.
    pub fn parse_fails_hard(&self, move_string: &str) -> (r: bool)
        ensures
            r == action_parse_fails_hard(*self, move_string@),
    {
        let s = chars_of(move_string);
        self.action_fails_hard(&s)
    }

    /// Reads a game type (see `game_type_spec`); an unknown one is
    /// `InvalidGameType`.
    pub fn parse_game_type(game_type: &str) -> (r: Result<Board, UhpError>)
        ensures
            match r {
                Ok(b) => (game_type_spec(game_type@) matches Some((m, l, p)) && is_new_board(b, m, l, p)),
                Err(e) => game_type_spec(game_type@) is None && (e matches UhpError::InvalidGameType(x)
                    && x@ == game_type@),
            },
    {
        let s = chars_of(game_type);
        let options = split_chars(&s, '+');
        proof {
            lemma_split_len(s@, '+');
            reveal_strlit("Base");
        }
        let is_base = eq_lit(options[0].as_slice(), "Base");
        assert("Base"@ == seq!['B', 'a', 's', 'e']);
        assert(s@ == game_type@);
        assert(options@[0]@ == split(game_type@, '+')[0]);
        if !is_base {
            return Err(UhpError::InvalidGameType(game_type.to_owned()));
        }
        let empty: Vec<char> = Vec::new();
        let o = if options.len() > 1 {
            &options[1]
        } else {
            &empty
        };
        let m: u8 = if contains_char(o.as_slice(), 'M') {
            1
        } else {
            0
        };
        let l: u8 = if contains_char(o.as_slice(), 'L') {
            1
        } else {
            0
        };
        let p: u8 = if contains_char(o.as_slice(), 'P') {
            1
        } else {
            0
        };
        assert(o@ == if split(game_type@, '+').len() > 1 {
            split(game_type@, '+')[1]
        } else {
            Seq::<char>::empty()
        });
        assert(game_type_spec(game_type@) == Some((m, l, p)));
        Ok(Board::new_mlp(m, l, p))
    }

    /// The state of the game (see `result_name`).
    fn game_result_string(&self) -> (r: &'static str)
        requires
            self.wf(),
        ensures
            r@ == result_name(self@),
    {
        proof {
            reveal_strlit("NotStarted");
            reveal_strlit("InProgress");
            reveal_strlit("WhiteWins");
            reveal_strlit("BlackWins");
            reveal_strlit("Draw");
        }
        if self.turn_history.len() == 0 {
            return "NotStarted";
        }
        match self.game_result() {
            GameResult::InProgress => "InProgress",
            GameResult::Winner(Color::White) => "WhiteWins",
            GameResult::Winner(Color::Black) => "BlackWins",
            GameResult::Draw => "Draw",
        }
    }

    /// The turn (see `turn_name`).
    fn turn_string(&self) -> (r: String)
        ensures
            r@ == turn_name(self@),
    {
        let mut out = String::new();
        push_char(&mut out, '"');
        let name = self.color().name();
        out.append(name);
        push_char(&mut out, '"');
        push_char(&mut out, '[');
        push_decimal(&mut out, self.turn_history.len() / 2 + 1);
        push_char(&mut out, ']');
        assert(color_name(color_of_turn(self.turn_num as int)) == name@);
        assert(out@ =~= turn_name(self@));
        out
    }

    /// The move log of the game, replayed from its start (see `game_log`).
    pub(crate) fn game_log_string(&self) -> (r: Vec<char>)
        requires
            self.wf(),
            game_type_spec(self.gametype@) matches Some((a, b, c)) && replay_ok(
                fresh_model(a, b, c),
                self@.history,
            ),
        ensures
            game_type_spec(self.gametype@) matches Some((a, b, c)) && r@ == game_log(
                fresh_model(a, b, c),
                self@.history,
            ),
    {
        let mut board = match Board::parse_game_type(self.gametype.as_str()) {
            Ok(b) => b,
            Err(_) => {
                assert(false);
                return Vec::new();
            },
        };
        let ghost fresh = match game_type_spec(self.gametype@) {
            Some((a, b, c)) => fresh_model(a, b, c),
            None => fresh_model(0, 0, 0),
        };
        let ghost h = self@.history;
        proof {
            assert forall|t: int| 0 <= t < GRID_SIZE implies board@.stacks[t] =~= fresh.stacks[t] by {
                assert(board@.stacks[t].len() == 0);
            }
            assert(board@.stacks =~= fresh.stacks);
            assert(same_position(board@, fresh));
            lemma_replay_same(board@, fresh, h);
        }
        let ghost m0 = board@;
        let mut log: Vec<char> = Vec::new();
        let n = self.turn_history.len();
        let mut i: usize = 0;
        assert(h.subrange(0, n as int) =~= h);
        while i < n
            invariant
                n == h.len(),
                h == self.turn_history@,
                0 <= i <= n,
                board.wf(),
                log@ + replay_log(board@, h.subrange(i as int, n as int)) == replay_log(m0, h),
                replay_ok(board@, h.subrange(i as int, n as int)),
            decreases n - i,
        {
            let a = self.turn_history[i];
            let ghost rest = h.subrange(i as int, n as int);
            assert(rest[0] == a);
            assert(rest.drop_first() =~= h.subrange(i + 1, n as int));
            let name = board.action_to_string(a);
            let mut chars = chars_of(name.as_str());
            log.append(&mut chars);
            log.push(';');
            board.do_action(a);
            assert(log@ + replay_log(board@, h.subrange(i + 1, n as int)) =~= replay_log(m0, h));
            i += 1;
        }
        assert(h.subrange(i as int, n as int) =~= Seq::<Action>::empty());
        assert(log@ =~= replay_log(m0, h));
        if log.len() > 0 && log[log.len() - 1] == ';' {
            log.pop();
        }
        log
    }

    /// Whether `m` can be written in this position (see `can_name`).
    pub fn can_name_action(&self, m: Action) -> (r: bool)
        requires
            self.wf(),
        ensures
            r == can_name(self@, m),
    {
        if !m.is_wf() {
            return false;
        }
        match m.kind() {
            ActionKind::Place(_, p) => {
                let c = self.color().index();
                let n = self.placeable[c][p.index()];
                let tot = tot_qty_of(p.index());
                n <= tot && (tot as u16) <= (n as u16) + 2
            },
            _ => true,
        }
    }

    /// Whether no player holds more pieces of a type than the game has
    /// (see `hand_ok`).
    pub fn hand_in_range(&self) -> (r: bool)
        requires
            self.wf(),
        ensures
            r == hand_ok(self@),
    {
        let mut c: usize = 0;
        while c < 2
            invariant
                0 <= c <= 2,
                forall|c2: int, p: int|
                    0 <= c2 < c && 0 <= p < 8 ==> #[trigger] self@.placeable[c2][p] <= tot_qty(p),
            decreases 2 - c,
        {
            let mut p: usize = 0;
            while p < 8
                invariant
                    0 <= c < 2,
                    0 <= p <= 8,
                    forall|c2: int, p2: int|
                        0 <= c2 < c && 0 <= p2 < 8 ==> #[trigger] self@.placeable[c2][p2] <= tot_qty(p2),
                    forall|p2: int| 0 <= p2 < p ==> #[trigger] self@.placeable[c as int][p2] <= tot_qty(p2),
                decreases 8 - p,
            {
                if self.placeable[c][p] > tot_qty_of(p) {
                    assert(!(self@.placeable[c as int][p as int] <= tot_qty(p as int)));
                    return false;
                }
                p += 1;
            }
            c += 1;
        }
        true
    }

    /// Whether the last action can be taken back (see `can_undo`).
    pub fn can_take_back(&self) -> (r: bool)
        requires
            self.wf(),
        ensures
            r == can_undo(self@),
    {
        let n = self.turn_history.len();
        if n == 0 || self.turn_num == 0 {
            return false;
        }
        let a = self.turn_history[n - 1];
        assert(a == self@.history.last());
        match a.kind() {
            ActionKind::Place(t, p) => {
                let c = Color::from_index(((self.turn_num - 1) % 2) as u8).index();
                self.height(t) > 0 && self.placeable[c][p.index()] < 255
            },
            ActionKind::Move(f, t) => {
                f != t && self.height(t) > 0 && self.height(f) + 1 < 255
            },
            ActionKind::Pass => true,
        }
    }

    /// Whether the game can be replayed from its start and written down:
    /// its type is known and each of its actions can be played and written
    /// in turn.
    pub fn is_replayable(&self) -> (r: bool)
        requires
            self.wf(),
        ensures
            r == (game_type_spec(self.gametype@) matches Some((a, b, c)) && replay_ok(
                fresh_model(a, b, c),
                self@.history,
            )),
    {
        let mut board = match Board::parse_game_type(self.gametype.as_str()) {
            Ok(b) => b,
            Err(_) => {
                return false;
            },
        };
        let ghost fresh = match game_type_spec(self.gametype@) {
            Some((a, b, c)) => fresh_model(a, b, c),
            None => fresh_model(0, 0, 0),
        };
        let ghost h = self@.history;
        proof {
            assert forall|t: int| 0 <= t < GRID_SIZE implies board@.stacks[t] =~= fresh.stacks[t] by {
                assert(board@.stacks[t].len() == 0);
            }
            assert(board@.stacks =~= fresh.stacks);
            assert(same_position(board@, fresh));
            lemma_replay_same(board@, fresh, h);
        }
        let n = self.turn_history.len();
        let mut i: usize = 0;
        assert(h.subrange(0, n as int) =~= h);
        while i < n
            invariant
                n == h.len(),
                h == self.turn_history@,
                0 <= i <= n,
                board.wf(),
                replay_ok(fresh, h) == replay_ok(board@, h.subrange(i as int, n as int)),
                forall|k: int| 0 <= k < h.len() ==> (#[trigger] h[k]).wf(),
                game_type_spec(self.gametype@) matches Some((a, b, c)) && fresh == fresh_model(a, b, c),
            decreases n - i,
        {
            let a = self.turn_history[i];
            let ghost rest = h.subrange(i as int, n as int);
            assert(rest[0] == a);
            assert(rest.drop_first() =~= h.subrange(i + 1, n as int));
            assert(replay_ok(board@, rest) == (can_do(board@, a) && can_name(board@, a) && replay_ok(
                do_spec(board@, a),
                rest.drop_first(),
            )));
            if !board.can_play(a) || !board.can_name_action(a) {
                return false;
            }
            board.do_action(a);
            i += 1;
        }
        assert(h.subrange(i as int, n as int) =~= Seq::<Action>::empty());
        true
    }

    /// The game record (see `game_string_spec`).
    pub fn game_string(&self) -> (r: String)
        requires
            self.wf(),
            game_type_spec(self.gametype@) matches Some((a, b, c)) && replay_ok(
                fresh_model(a, b, c),
                self@.history,
            ),
        ensures
            r@ == game_string_spec(self.gametype@, self@),
    {
        let mut out = self.gametype.clone();
        push_char(&mut out, ';');
        out.append(self.game_result_string());
        push_char(&mut out, ';');
        let t = self.turn_string();
        out.append(t.as_str());
        if self.turn_history.len() != 0 {
            push_char(&mut out, ';');
            let log = self.game_log_string();
            let ls = string_of(&log);
            out.append(ls.as_str());
        }
        assert(out@ =~= game_string_spec(self.gametype@, self@));
        out
    }

    /// The notations of all legal moves, separated by `;`.
    pub fn legal_moves_string(&mut self) -> (r: String)
        requires
            old(self).wf(),
            few_pieces(*old(self)),
            hand_ok(old(self)@),
        ensures
            *final(self) == *old(self),
            r@ == join_actions(old(self)@, moves_spec(*old(self))),
    {
        let moves = self.generate_moves();
        let mut out = String::new();
        let mut i: usize = 0;
        while i < moves.len()
            invariant
                self.wf(),
                hand_ok(self@),
                all_gen_ok(*self, moves@),
                0 <= i <= moves@.len(),
                out@ == join_actions(self@, moves@.subrange(0, i as int)),
            decreases moves@.len() - i,
        {
            let a = moves[i];
            assert(gen_ok(*self, moves@[i as int]));
            assert(can_name(self@, a)) by {
                if let ActionKind::Place(_, p) = a.spec_kind() {
                    crate::piece_type::lemma_pct_roundtrip(p);
                    assert(self@.placeable[mover(*self)][pct_index(p)] == self.placeable[mover(*self)][pct_index(p)]);
                }
            }
            if i > 0 {
                push_char(&mut out, ';');
            }
            let name = self.action_to_string(a);
            out.append(name.as_str());
            assert(moves@.subrange(0, i + 1).drop_last() =~= moves@.subrange(0, i as int));
            i += 1;
            assert(out@ =~= join_actions(self@, moves@.subrange(0, i as int)));
        }
        assert(moves@.subrange(0, i as int) =~= moves@);
        out
    }

    /// Reads a game record: game type, state, turn, then the moves, which
    /// are played in turn (see `game_read` and `game_read_error`).
    pub fn parse_game_string(s: &str) -> (r: Result<Board, UhpError>)
        ensures
            match r {
                Ok(b) => game_read(s@, b),
                Err(e) => game_read_error(s@, e),
            },
    {
        let chars = chars_of(s);
        let toks = split_chars(&chars, ';');
        proof {
            lemma_split_len(s@, ';');
        }
        let ghost ts = split(s@, ';');
        let gt = string_of(&toks[0]);
        let board = match Board::parse_game_type(gt.as_str()) {
            Ok(b) => b,
            Err(e) => return Err(e),
        };
        if toks.len() < 2 {
            return Ok(board);
        }
        if toks.len() < 3 {
            return Err(UhpError::InvalidGameString(String::from_str("missing turn string")));
        }
        let mut board = board;
        let ghost b0 = board;
        let ghost mut boards: Seq<Board> = seq![board];
        let ghost mut acts: Seq<Action> = Seq::empty();
        let mut i: usize = 3;
        assert(replay_chain(boards, ts.subrange(3, 3), acts));
        while i < toks.len()
            invariant
                ts == split(s@, ';'),
                toks@.len() == ts.len(),
                forall|j: int| 0 <= j < toks@.len() ==> #[trigger] toks@[j]@ == ts[j],
                3 <= i <= ts.len(),
                board.wf(),
                game_type_spec(ts[0]) matches Some((x, y, z)) && is_new_board(b0, x, y, z),
                boards[0] == b0,
                replay_chain(boards, ts.subrange(3, i as int), acts),
                boards.last() == board,
            decreases ts.len() - i,
        {
            let mv = &toks[i];
            if board.action_fails_hard(mv) {
                assert(move_fails(boards.last(), ts[i as int]));
                let ghost k = i - 3;
                assert(ts.subrange(3, 3 + k) == ts.subrange(3, i as int));
                assert(replay_chain(boards, ts.subrange(3, 3 + k), acts));
                let bad = string_of(mv);
                assert(bad@ == ts[3 + k]);
                let e = UhpError::InvalidMove(bad);
                assert(game_read_error(s@, e));
                return Err(e);
            }
            let a = match board.parse_action_chars(mv) {
                Some(a) => a,
                None => {
                    assert(move_fails(boards.last(), ts[i as int]));
                    let ghost k = i - 3;
                    assert(ts.subrange(3, 3 + k) == ts.subrange(3, i as int));
                    assert(replay_chain(boards, ts.subrange(3, 3 + k), acts));
                    let bad = string_of(mv);
                    assert(bad@ == ts[3 + k]);
                    let e = UhpError::InvalidMove(bad);
                    assert(game_read_error(s@, e));
                    return Err(e);
                },
            };
            if !board.can_play(a) {
                assert(move_fails(boards.last(), ts[i as int]));
                let ghost k = i - 3;
                assert(ts.subrange(3, 3 + k) == ts.subrange(3, i as int));
                assert(replay_chain(boards, ts.subrange(3, 3 + k), acts));
                let bad = string_of(mv);
                assert(bad@ == ts[3 + k]);
                let e = UhpError::InvalidMove(bad);
                assert(game_read_error(s@, e));
                return Err(e);
            }
            let ghost before = board;
            board.do_action(a);
            proof {
                let old_boards = boards;
                let old_acts = acts;
                boards = boards.push(board);
                acts = acts.push(a);
                let mvs = ts.subrange(3, i + 1);
                assert(mvs.subrange(0, mvs.len() - 1) =~= ts.subrange(3, i as int));
                assert forall|j: int| 0 <= j < mvs.len() implies replay_step(boards[j], boards[j + 1], mvs[j], #[trigger] acts[j]) by {
                    if j < mvs.len() - 1 {
                        assert(old_acts[j] == acts[j]);
                        assert(replay_step(old_boards[j], old_boards[j + 1], ts.subrange(3, i as int)[j], old_acts[j]));
                        assert(boards[j] == old_boards[j]);
                        assert(boards[j + 1] == old_boards[j + 1]);
                        assert(mvs[j] == ts.subrange(3, i as int)[j]);
                    } else {
                        assert(boards[j] == before);
                        assert(mvs[j] == ts[i as int]);
                    }
                }
            }
            i += 1;
        }
        assert(ts.subrange(3, i as int) =~= ts.subrange(3, ts.len() as int));
        Ok(board)
    }

}

} // verus!
