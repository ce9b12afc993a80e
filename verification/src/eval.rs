//! Evaluation scores, and the hand-written evaluation: free tiles around
//! the queen of the player to move, then mobility, against the same for the
//! opponent.

use vstd::prelude::*;
use crate::action::Action;
use crate::board::{Board, color_of_turn};
use crate::movegen::{moves_spec, few_pieces};
use crate::piece::color_index;
use crate::tile::{adjacent, step, dir_at};
use crate::tally::{hits, lemma_hits_step};

verus! {

/// A static evaluation, from the point of view of the player to move.
pub type Eval = i16;

/// A search value.
pub type Value = Eval;

/// Number of the first `k` neighbours of tile `t` that hold no piece.
pub open spec fn free_neighbours(b: Board, t: int, k: int) -> int
    decreases k,
{
    if k <= 0 {
        0
    } else {
        free_neighbours(b, t, k - 1) + if b@.stacks[step(t, dir_at(k - 1))].len() == 0 {
            1int
        } else {
            0int
        }
    }
}

/// The free tiles around the queen of the player to move; 5 while that
/// queen is not on the board.
pub open spec fn queen_score_spec(b: Board) -> int {
    match b.queens[color_index(color_of_turn(b.turn_num as int))] {
        Some(t) => free_neighbours(b, t as int, 6),
        None => 5,
    }
}

/// A player's score: a thousand per free tile around its queen, plus its
/// number of moves (counted modulo 16 bits, as the score is).
pub open spec fn score_spec(b: Board, moves_n: usize) -> Eval {
    ((1000 * queen_score_spec(b)) as Eval).wrapping_add(moves_n as Eval)
}

/// The board with the other player to move.
pub open spec fn flipped(b: Board) -> Board {
    Board { turn_num: (b.turn_num + 1) as usize, ..b }
}

/// The evaluation with `my_n` moves for the player to move: its score less
/// the opponent's (modulo 16 bits).
pub open spec fn eval_spec(b: Board, my_n: usize) -> Eval {
    score_spec(b, my_n).wrapping_sub(score_spec(flipped(b), moves_spec(flipped(b)).len() as usize))
}

/// The first `k` neighbour counts of `free_neighbours` are the number of
/// neighbour indices below `k` whose tile holds no piece.
proof fn lemma_free_neighbours_hits(b: Board, t: int, k: int)
    requires
        0 <= k,
    ensures
        free_neighbours(b, t, k) == hits(|d: int| b@.stacks[step(t, dir_at(d))].len() == 0, k).len(),
    decreases k,
{
    let p = |d: int| b@.stacks[step(t, dir_at(d))].len() == 0;
    if k == 0 {
        lemma_hits_step(p, 0);
        assert(hits(p, 0) =~= Set::<int>::empty());
    } else {
        lemma_free_neighbours_hits(b, t, k - 1);
        lemma_hits_step(p, k - 1);
    }
}

/// The queen score counts the free tiles around the queen of the player to
/// move: when that player's queen is on tile `q`, it is the number of the
/// six neighbours of `q` with no piece on them; while that queen is not
/// placed, it is 5.
pub proof fn law_queen_score_counts_free_tiles_around_movers_queen(b: Board)
    ensures
        b@.queens[color_index(color_of_turn(b@.turn_num))] matches Some(q) ==> queen_score_spec(b)
            == Set::new(|d: int| 0 <= d < 6 && b@.stacks[step(q as int, dir_at(d))].len() == 0).len(),
        b@.queens[color_index(color_of_turn(b@.turn_num))] is None ==> queen_score_spec(b) == 5,
        0 <= queen_score_spec(b) <= 6,
{
    let mover_queen = b@.queens[color_index(color_of_turn(b@.turn_num))];
    if let Some(q) = mover_queen {
        let p = |d: int| b@.stacks[step(q as int, dir_at(d))].len() == 0;
        lemma_free_neighbours_hits(b, q as int, 6);
        lemma_hits_step(p, 6);
        assert(hits(p, 6) =~= Set::new(|d: int| 0 <= d < 6 && b@.stacks[step(q as int, dir_at(d))].len() == 0));
    }
}

impl Board {
    /// The free tiles around the queen of the player to move (see
    /// `queen_score_spec`).
    pub fn queen_score(&self) -> (r: Eval)
        requires
            self.wf(),
        ensures
            r == queen_score_spec(*self),
            0 <= r <= 6,
    {
        let c = self.color().index();
        match self.queens[c] {
            Some(tile) => {
                let around = adjacent(tile);
                let mut n: Eval = 0;
                let mut i: usize = 0;
                while i < 6
                    invariant
                        0 <= i <= 6,
                        self.wf(),
                        forall|j: int| 0 <= j < 6 ==> around@[j] == #[trigger] step(tile as int, dir_at(j)),
                        forall|j: int| 0 <= j < 6 ==> around@[j] < crate::tile::GRID_SIZE,
                        n == free_neighbours(*self, tile as int, i as int),
                        0 <= n <= i,
                    decreases 6 - i,
                {
                    if !self.occupied(around[i]) {
                        n += 1;
                    }
                    i += 1;
                }
                n
            },
            None => 5,
        }
    }

    /// A player's score with `my_moves_n` moves (see `score_spec`).
    pub fn score(&self, my_moves_n: usize) -> (r: Eval)
        requires
            self.wf(),
        ensures
            r == score_spec(*self, my_moves_n),
    {
        let q = self.queen_score();
        (1000 * q).wrapping_add(my_moves_n as Eval)
    }

    /// The number of moves the opponent would have if it were to move.
    pub fn other_n_moves(&mut self) -> (r: usize)
        requires
            old(self).wf(),
            few_pieces(*old(self)),
            old(self).turn_num < usize::MAX,
        ensures
            *final(self) == *old(self),
            r == moves_spec(flipped(*old(self))).len(),
    {
        self.turn_num += 1;
        let n = self.generate_moves().len();
        self.turn_num -= 1;
        n
    }

    /// The evaluation of the position with `my_moves` the moves of the
    /// player to move (see `eval_spec`).
    pub fn static_eval_fast(&mut self, my_moves: &Vec<Action>) -> (r: Eval)
        requires
            old(self).wf(),
            few_pieces(*old(self)),
            old(self).turn_num < usize::MAX,
        ensures
            *final(self) == *old(self),
            r == eval_spec(*old(self), my_moves@.len() as usize),
    {
        let my_score = self.score(my_moves.len());
        self.turn_num += 1;
        assert(*self == flipped(*old(self)));
        let their_move_n = self.generate_moves().len();
        let their_score = self.score(their_move_n);
        self.turn_num -= 1;
        my_score.wrapping_sub(their_score)
    }

    /// The evaluation of the position (see `eval_spec`).
    pub fn static_eval(&mut self) -> (r: Eval)
        requires
            old(self).wf(),
            few_pieces(*old(self)),
            old(self).turn_num < usize::MAX,
        ensures
            *final(self) == *old(self),
            r == eval_spec(*old(self), moves_spec(*old(self)).len() as usize),
    {
        let my_moves = self.generate_moves();
        self.static_eval_fast(&my_moves)
    }
}

} // verus!
