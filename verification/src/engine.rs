//! Scores and move bookkeeping of the search: mate scores, their display,
//! and the indexes of the move statistics tables.

use vstd::prelude::*;
use crate::action::{Action, ActionKind};
use crate::board::{Board, GameResult, color_of_turn, game_result_spec};
use crate::eval::{Eval, Value};
use crate::piece::{Color, color_index, spec_other};
use crate::piece_type::{pct_index, PCT_COUNT};
use crate::tile::GRID_SIZE;
use crate::board_io::{decimal, push_decimal};

verus! {

/// Search depth in plies.
pub type Depth = u8;

/// A value above every evaluation.
pub const INF: Eval = 32500;

/// The base of mate scores.
pub const WIN: Eval = 32000;

/// The score of mating in `ply` plies.
pub open spec fn mate_in_spec(ply: Depth) -> int {
    WIN + 99 - ply
}

/// The score of mating in `ply` plies: later mates score less.
pub fn mate_in(ply: Depth) -> (r: Eval)
    ensures
        r == mate_in_spec(ply),
{
    WIN + 99 - ply as Eval
}

/// The score of being mated in `ply` plies.
pub fn mated_in(ply: Depth) -> (r: Eval)
    ensures
        r == -mate_in_spec(ply),
{
    -mate_in(ply)
}

/// The decimal notation of `n`, with a minus sign when negative.
pub open spec fn int_string(n: int) -> Seq<char> {
    if n < 0 {
        seq!['-'] + decimal((-n) as nat)
    } else {
        decimal(n as nat)
    }
}

/// How a score is shown: `+#n` for mating in `n` moves' worth of plies,
/// `-#n` for being mated, else the value with its sign.
pub open spec fn display_eval_spec(e: Eval) -> Seq<char> {
    if e > WIN {
        seq!['+', '#'] + int_string(WIN + 99 - e)
    } else if e < -WIN {
        seq!['-', '#'] + int_string(e + WIN + 99)
    } else if e >= 0 {
        seq!['+'] + decimal(e as nat)
    } else {
        seq!['-'] + decimal((-e) as nat)
    }
}

/// Appends the decimal notation of `n` to `out`, with a minus sign when
/// negative.
fn push_int(out: &mut String, n: i32)
    ensures
        final(out)@ == old(out)@ + int_string(n as int),
{
    if n < 0 {
        crate::board_io::push_char_pub(out, '-');
        push_decimal(out, (-(n as i64)) as usize);
        assert(final(out)@ =~= old(out)@ + int_string(n as int));
    } else {
        push_decimal(out, n as usize);
    }
}

/// How a score is shown (see `display_eval_spec`).
pub fn display_eval(e: Eval) -> (r: String)
    ensures
        r@ == display_eval_spec(e),
{
    let mut out = String::new();
    if e > WIN {
        crate::board_io::push_char_pub(&mut out, '+');
        crate::board_io::push_char_pub(&mut out, '#');
        push_int(&mut out, (WIN + 99 - e) as i32);
    } else if e < -WIN {
        crate::board_io::push_char_pub(&mut out, '-');
        crate::board_io::push_char_pub(&mut out, '#');
        push_int(&mut out, (e + WIN + 99) as i32);
    } else if e >= 0 {
        crate::board_io::push_char_pub(&mut out, '+');
        push_decimal(&mut out, e as usize);
    } else {
        crate::board_io::push_char_pub(&mut out, '-');
        push_decimal(&mut out, (-(e as i32)) as usize);
    }
    assert(out@ =~= display_eval_spec(e));
    out
}

/// Number of move classes per destination tile: one per origin tile, one
/// per piece type placed.
pub open spec fn move_classes() -> int {
    GRID_SIZE + PCT_COUNT
}

/// The statistics index of a move: by destination, then origin tile or
/// placed type; the pass after all of them.
pub open spec fn vote_index_spec(mv: Action) -> int {
    match mv.spec_kind() {
        ActionKind::Place(to, p) => to * move_classes() + GRID_SIZE + pct_index(p),
        ActionKind::Move(from, to) => to * move_classes() + from,
        ActionKind::Pass => move_classes() * GRID_SIZE,
    }
}

/// The statistics index of a move (see `vote_index_spec`).
pub fn vote_index(mv: Action) -> (r: usize)
    requires
        mv.wf(),
    ensures
        r == vote_index_spec(mv),
        r <= move_classes() * GRID_SIZE,
{
    match mv.kind() {
        ActionKind::Place(to, p) => to as usize * (GRID_SIZE + PCT_COUNT) + GRID_SIZE + p.index(),
        ActionKind::Move(from, to) => to as usize * (GRID_SIZE + PCT_COUNT) + from as usize,
        ActionKind::Pass => (GRID_SIZE + PCT_COUNT) * GRID_SIZE,
    }
}

/// The history index of a move by a player of color `c`: one block of
/// move indexes per color; the pass after both blocks.
pub open spec fn hist_index_spec(c: Color, mv: Action) -> int {
    match mv.spec_kind() {
        ActionKind::Pass => 2 * move_classes() * GRID_SIZE,
        _ => color_index(c) * move_classes() * GRID_SIZE + vote_index_spec(mv),
    }
}

/// The history index of a move (see `hist_index_spec`).
pub fn hist_index(c: Color, mv: Action) -> (r: usize)
    requires
        mv.wf(),
    ensures
        r == hist_index_spec(c, mv),
        r <= 2 * move_classes() * GRID_SIZE,
{
    let ci = c.index() * (GRID_SIZE + PCT_COUNT) * GRID_SIZE;
    match mv.kind() {
        ActionKind::Place(to, p) => ci + to as usize * (GRID_SIZE + PCT_COUNT) + GRID_SIZE + p.index(),
        ActionKind::Move(from, to) => ci + to as usize * (GRID_SIZE + PCT_COUNT) + from as usize,
        ActionKind::Pass => 2 * (GRID_SIZE + PCT_COUNT) * GRID_SIZE,
    }
}

/// The history index of the previous move, by the player who made it (the
/// pass when there is none).
pub open spec fn last_move_slot(b: Board) -> int {
    hist_index_spec(
        spec_other(color_of_turn(b.turn_num as int)),
        if b.turn_history@.len() > 0 {
            b.turn_history@.last()
        } else {
            Action::spec_from_kind(ActionKind::Pass)
        },
    )
}

/// The history index of the previous move (see `last_move_slot`).
pub fn last_move_index(b: &Board) -> (r: usize)
    requires
        b.wf(),
    ensures
        r == last_move_slot(*b),
        r <= 2 * move_classes() * GRID_SIZE,
{
    let n = b.turn_history.len();
    let last = if n > 0 {
        b.turn_history[n - 1]
    } else {
        Action::Pass()
    };
    assert(n > 0 ==> b.turn_history@[n - 1].wf());
    hist_index(b.color().other(), last)
}

/// The score of a finished game at `ply` from the root, for the player to
/// move: none while it goes on, 0 for a draw, a mate score for the winner.
pub open spec fn terminal_score_spec(b: Board, ply: Depth) -> Option<Value> {
    match game_result_spec(b@) {
        GameResult::InProgress => None,
        GameResult::Draw => Some(0),
        GameResult::Winner(c) => if c == color_of_turn(b.turn_num as int) {
            Some(mate_in_spec(ply) as i16)
        } else {
            Some((-mate_in_spec(ply)) as i16)
        },
    }
}

/// The score of a finished game (see `terminal_score_spec`).
pub fn terminal_score(b: &Board, ply: Depth) -> (r: Option<Value>)
    requires
        b.wf(),
    ensures
        r == terminal_score_spec(*b, ply),
{
    match b.game_result() {
        GameResult::InProgress => None,
        GameResult::Draw => Some(0),
        GameResult::Winner(color) => {
            if color == b.color() {
                Some(mate_in(ply))
            } else {
                Some(-mate_in(ply))
            }
        },
    }
}

/// `i` is the first index of a greatest count in `votes`.
pub open spec fn first_max(votes: Seq<u64>, i: int) -> bool {
    &&& 0 <= i < votes.len()
    &&& forall|j: int| 0 <= j < votes.len() ==> votes[j] <= votes[i]
    &&& forall|j: int| 0 <= j < i ==> votes[j] < votes[i]
}

/// The root move with the most votes, the first of `moves` among those
/// with as many; the pass when there is no move.
pub fn most_voted(moves: &Vec<Action>, votes: &Vec<u64>) -> (r: Action)
    requires
        moves@.len() == votes@.len(),
    ensures
        moves@.len() == 0 ==> r == Action::spec_from_kind(ActionKind::Pass),
        moves@.len() > 0 ==> exists|i: int| #[trigger] first_max(votes@, i) && r == moves@[i],
{
    if moves.len() == 0 {
        return Action::Pass();
    }
    let mut best: usize = 0;
    let mut k: usize = 1;
    while k < moves.len()
        invariant
            moves@.len() == votes@.len(),
            1 <= k <= moves@.len(),
            best < k,
            forall|j: int| 0 <= j < k ==> votes@[j] <= votes@[best as int],
            forall|j: int| 0 <= j < best ==> votes@[j] < votes@[best as int],
        decreases moves@.len() - k,
    {
        if votes[k] > votes[best] {
            best = k;
        }
        k += 1;
    }
    assert(first_max(votes@, best as int));
    moves[best]
}

} // verus!
