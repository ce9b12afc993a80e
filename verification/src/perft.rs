//! Counting the leaves of the game tree to a given depth, the standard
//! check of a move generator.

use vstd::prelude::*;
use crate::action::Action;
use crate::board::{Board, GameResult, game_result_spec, lemma_undo_inverts_do, can_do, do_spec};
use crate::movegen::{moves_spec, few_pieces, gen_ok};

verus! {

/// The sum of the first `n` counts of `cs`, modulo the word size.
pub open spec fn wrap_sum(cs: Seq<usize>, n: int) -> usize
    decreases n,
{
    if n <= 0 {
        0
    } else {
        wrap_sum(cs, n - 1).wrapping_add(cs[n - 1])
    }
}

proof fn lemma_wrap_sum_prefix(a: Seq<usize>, b: Seq<usize>, n: int)
    requires
        0 <= n <= a.len(),
        n <= b.len(),
        forall|k: int| 0 <= k < n ==> a[k] == b[k],
    ensures
        wrap_sum(a, n) == wrap_sum(b, n),
    decreases n,
{
    if n > 0 {
        lemma_wrap_sum_prefix(a, b, n - 1);
    }
}

proof fn lemma_perft_step(b0: Board, depth: nat, cs: Seq<usize>, bs: Seq<Board>, total: usize)
    requires
        depth >= 2,
        game_result_spec(b0@) == GameResult::InProgress,
        few_pieces(b0),
        cs.len() == moves_spec(b0).len(),
        bs.len() == cs.len(),
        total == wrap_sum(cs, cs.len() as int),
        forall|k: int|
            0 <= k < cs.len() ==> (if can_do(b0@, #[trigger] moves_spec(b0)[k]) {
                bs[k].wf() && bs[k]@ == do_spec(b0@, moves_spec(b0)[k]) && perft_ok(bs[k], (depth - 1) as nat, cs[k])
            } else {
                cs[k] == 0
            }),
    ensures
        perft_ok(b0, depth, total),
{
    let ms = moves_spec(b0);
    assert forall|k: int| 0 <= k < ms.len() implies #[trigger] child_ok(b0, ms[k], cs[k], (depth - 1) as nat) by {
        let a = ms[k];
        if can_do(b0@, a) {
            assert(bs[k].wf() && bs[k]@ == do_spec(b0@, a));
            assert(perft_ok(bs[k], (depth - 1) as nat, cs[k]));
            assert(child_ok(b0, a, cs[k], (depth - 1) as nat));
        } else {
            assert(cs[k] == 0);
            assert(child_ok(b0, a, cs[k], (depth - 1) as nat));
        }
    }
    assert(wrap_sum(cs, ms.len() as int) == total);
}

/// `c` is a count for the move `a` from `b`: the count from the board the
/// move leads to, `d` turns deep, or 0 when the move cannot be played.
pub open spec fn child_ok(b: Board, a: Action, c: usize, d: nat) -> bool
    decreases d, 2int,
{
    if can_do(b@, a) {
        exists|b2: Board| #[trigger] b2.wf() && b2@ == do_spec(b@, a) && perft_ok(b2, d, c)
    } else {
        c == 0
    }
}

/// `r` is a count of the lines of play of `depth` turns from `b`: 1 at
/// depth 0 or when the game is over, 0 on a board with too many pieces, the
/// number of moves at depth 1, and otherwise the sum (modulo the word size)
/// of one count per generated move (see `child_ok`).
pub open spec fn perft_ok(b: Board, depth: nat, r: usize) -> bool
    decreases depth, 1int,
{
    if depth == 0 {
        r == 1
    } else if game_result_spec(b@) != GameResult::InProgress {
        r == 1
    } else if !few_pieces(b) {
        r == 0
    } else if depth == 1 {
        r == moves_spec(b).len()
    } else {
        let ms = moves_spec(b);
        exists|cs: Seq<usize>|
            #![trigger wrap_sum(cs, ms.len() as int)]
            cs.len() == ms.len() && r == wrap_sum(cs, ms.len() as int) && forall|k: int|
                0 <= k < ms.len() ==> #[trigger] child_ok(b, ms[k], cs[k], (depth - 1) as nat)
    }
}

/// The number of lines of play of `depth` turns from `board`, where a
/// finished game ends a line early. The board is left as it was.
///
/// Counts add up modulo the word size.
pub fn perft(board: &mut Board, depth: usize) -> (r: usize)
    requires
        old(board).wf(),
    ensures
        final(board).wf(),
        final(board)@ == old(board)@,
        final(board).gametype == old(board).gametype,
        depth == 0 ==> r == 1,
        depth > 0 && game_result_spec(old(board)@) != GameResult::InProgress ==> r == 1,
        depth > 0 && game_result_spec(old(board)@) == GameResult::InProgress && !few_pieces(
            *old(board),
        ) ==> r == 0,
        depth == 1 && game_result_spec(old(board)@) == GameResult::InProgress && few_pieces(
            *old(board),
        ) ==> r == moves_spec(*old(board)).len(),
        perft_ok(*old(board), depth as nat, r),
    decreases depth,
{
    if depth == 0 {
        return 1;
    }
    let result = board.game_result();
    if result != GameResult::InProgress {
        return 1;
    }
    if !board.has_few_pieces() {
        return 0;
    }
    let moves = board.generate_moves();
    let n = moves.len();
    if depth == 1 {
        return n;
    }
    let ghost m0 = board@;
    let ghost b0 = *board;
    let ghost mut cs: Seq<usize> = Seq::empty();
    let ghost mut bs: Seq<Board> = Seq::empty();
    assert forall|k: int| 0 <= k < moves@.len() implies (#[trigger] moves@[k]).wf() by {
        assert(gen_ok(*board, moves@[k]));
    }
    let mut total: usize = 0;
    let mut i: usize = 0;
    while i < n
        invariant
            0 <= i <= n,
            n == moves@.len(),
            board.wf(),
            board@ == m0,
            board.gametype == b0.gametype,
            depth >= 2,
            forall|k: int| 0 <= k < moves@.len() ==> (#[trigger] moves@[k]).wf(),
            moves@ == moves_spec(b0),
            m0 == b0@,
            cs.len() == i,
            bs.len() == i,
            total == wrap_sum(cs, i as int),
            forall|k: int|
                0 <= k < i ==> (if can_do(m0, #[trigger] moves@[k]) {
                    bs[k].wf() && bs[k]@ == do_spec(m0, moves@[k]) && perft_ok(bs[k], (depth - 1) as nat, cs[k])
                } else {
                    cs[k] == 0
                }),
        decreases n - i,
    {
        let m: Action = moves[i];
        let ghost cs0 = cs;
        let ghost t0 = total;
        if board.can_play(m) {
            proof {
                board.lemma_wf_model();
                lemma_undo_inverts_do(m0, m);
            }
            board.do_action(m);
            let ghost b2 = *board;
            let c = perft(board, depth - 1);
            proof {
                cs = cs.push(c);
                bs = bs.push(b2);
            }
            total = total.wrapping_add(c);
            board.undo_action();
        } else {
            proof {
                cs = cs.push(0usize);
                bs = bs.push(b0);
            }
        }
        proof {
            lemma_wrap_sum_prefix(cs, cs0, i as int);
            assert(wrap_sum(cs, i + 1) == wrap_sum(cs, i as int).wrapping_add(cs[i as int]));
            assert(t0.wrapping_add(0usize) == t0);
        }
        i += 1;
    }
    proof {
        lemma_perft_step(b0, depth as nat, cs, bs, total);
    }
    total
}

} // verus!
