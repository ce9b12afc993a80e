//! Training positions taken from finished games: each game is replayed
//! from its game type, and every position reached is recorded with the
//! result seen from the side to move, in half points; a position reached
//! again adds to its totals.

use vstd::prelude::*;
use crate::action::Action;
use crate::board::{Board, can_do, color_of_turn, do_spec, lemma_undo_inverts_do};
use crate::board_io::{
    action_parse_fails_hard, fresh_model, game_read, game_read_error, game_string_spec, game_type_spec, parse_action_spec,
    replay_ok,
};
use crate::movegen::{few_pieces, moves_spec};
use crate::piece::Color;
use crate::uhp::UhpError;
use rand::seq::SliceRandom;

verus! {

/// A finished game: the winner (none for a draw), the game type and the
/// move strings.
pub struct ParsedGame {
    pub winner: Option<Color>,
    pub gametype: String,
    pub moves: Vec<String>,
}

/// The result for the side to move `c`, in half points: 2 for a win, 1 for
/// a draw, 0 for a loss.
pub open spec fn half_points(winner: Option<Color>, c: Color) -> u64 {
    match winner {
        Some(w) => if w == c {
            2
        } else {
            0
        },
        None => 1,
    }
}

/// How often `m` occurs among the first `k` of `ms`.
pub open spec fn occurrences(ms: Seq<Seq<char>>, k: int, m: Seq<char>) -> int
    decreases k,
{
    if k <= 0 {
        0
    } else {
        occurrences(ms, k - 1, m) + if ms[k - 1] == m {
            1int
        } else {
            0int
        }
    }
}

/// The game string of `b` can be written: its moves replay from a new
/// board of its game type.
pub open spec fn replayable(b: Board) -> bool {
    game_type_spec(b.gametype@) matches Some((x, y, z)) && replay_ok(fresh_model(x, y, z), b@.history)
}

/// `out` is what the replay of `ms` from its `k`-th move on `b` records:
/// the game string of each position reached and its half points for the
/// side to move there. The replay stops at a move string seen for the
/// fifth time, one that does not read as an action, one whose action is
/// not legal or cannot be played, on a board with too many pieces, and
/// where the game string cannot be written.
pub open spec fn replay_positions(b: Board, winner: Option<Color>, ms: Seq<Seq<char>>, k: int, out: Seq<(Seq<char>, u64)>) -> bool
    decreases ms.len() - k,
{
    if k < 0 || k >= ms.len() || occurrences(ms, k + 1, ms[k]) >= 5 {
        out.len() == 0
    } else if action_parse_fails_hard(b, ms[k]) || parse_action_spec(b, ms[k]) is None {
        out.len() == 0
    } else if !few_pieces(b) || !moves_spec(b).contains(parse_action_spec(b, ms[k])->0) || !can_do(
        b@,
        parse_action_spec(b, ms[k])->0,
    ) {
        out.len() == 0
    } else {
        exists|b2: Board|
            #[trigger] b2.wf() && b2@ == do_spec(b@, parse_action_spec(b, ms[k])->0) && b2.gametype == b.gametype && if !replayable(b2) {
                out.len() == 0
            } else {
                &&& out.len() > 0
                &&& out[0] == (game_string_spec(b2.gametype@, b2@), half_points(winner, color_of_turn(b2@.turn_num)))
                &&& replay_positions(b2, winner, ms, k + 1, out.drop_first())
            }
    }
}

/// The view of a game: winner, game type, move strings.
pub open spec fn game_view(g: ParsedGame) -> (Option<Color>, Seq<char>, Seq<Seq<char>>) {
    (g.winner, g.gametype@, g.moves@.map_values(|m: String| m@))
}

/// `out` is what the replay of the game `g` records: nothing when its game
/// type does not read, else the replay from the board it reads as.
pub open spec fn game_positions_ok(g: (Option<Color>, Seq<char>, Seq<Seq<char>>), out: Seq<(Seq<char>, u64)>) -> bool {
    ||| (exists|e: UhpError| #[trigger] game_read_error(g.1, e)) && out.len() == 0
    ||| exists|b: Board| #[trigger] game_read(g.1, b) && replay_positions(b, g.0, g.2, 0, out)
}

/// A board read from a game string is well formed.
proof fn lemma_game_read_wf(s: Seq<char>, b: Board)
    requires
        game_read(s, b),
    ensures
        b.wf(),
{
    let toks = crate::board_io::split(s, ';');
    if toks.len() >= 3 {
        let (x, y, z) = game_type_spec(toks[0])->0;
        let (boards, acts) = choose|boards: Seq<Board>, acts: Seq<Action>|
            #[trigger] crate::board_io::replay_chain(boards, toks.subrange(3, toks.len() as int), acts)
                && crate::board::is_new_board(boards[0], x, y, z) && b == boards.last();
        let n: int = toks.subrange(3, toks.len() as int).len() as int;
        if n > 0 {
            assert(crate::board_io::replay_step(boards[n - 1], boards[n], toks.subrange(3, toks.len() as int)[n - 1], acts[n - 1]));
        }
    }
}

/// How many of the first `k` strings of `ms` equal `m`.
fn count_before(ms: &Vec<String>, k: usize, m: &String) -> (r: usize)
    requires
        k <= ms@.len(),
    ensures
        r == occurrences(ms@.map_values(|s: String| s@), k as int, m@),
{
    let ghost v = ms@.map_values(|s: String| s@);
    let mut c: usize = 0;
    let mut i: usize = 0;
    while i < k
        invariant
            v == ms@.map_values(|s: String| s@),
            k <= ms@.len(),
            0 <= i <= k,
            c == occurrences(v, i as int, m@),
            c <= i,
        decreases k - i,
    {
        if ms[i] == *m {
            c += 1;
        }
        i += 1;
    }
    c
}

/// The positions of one game (see `game_positions_ok`): each game string
/// with its half points for the side to move.
pub fn game_positions(game: &ParsedGame) -> (r: Vec<(String, u64)>)
    ensures
        game_positions_ok(game_view(*game), r@.map_values(|p: (String, u64)| (p.0@, p.1))),
{
    let ghost ms = game.moves@.map_values(|m: String| m@);
    let mut out: Vec<(String, u64)> = Vec::new();
    let mut board = match Board::parse_game_string(game.gametype.as_str()) {
        Ok(b) => b,
        Err(e) => {
            proof {
                assert(game_read_error(game_view(*game).1, e));
                assert(out@.map_values(|p: (String, u64)| (p.0@, p.1)).len() == 0);
            }
            return out;
        },
    };
    let ghost b0 = board;
    proof {
        lemma_game_read_wf(game.gametype@, board);
    }
    let mut k: usize = 0;
    let ghost mut bk = board;
    while k < game.moves.len()
        invariant_except_break
            bk == board,
            forall|rest: Seq<(Seq<char>, u64)>| #[trigger] replay_positions(board, game.winner, ms, k as int, rest)
                ==> replay_positions(b0, game.winner, ms, 0, out@.map_values(|p: (String, u64)| (p.0@, p.1)) + rest),
        invariant
            ms == game.moves@.map_values(|m: String| m@),
            0 <= k <= ms.len(),
            board.wf(),
            board.gametype == b0.gametype,
        ensures
            replay_positions(bk, game.winner, ms, k as int, Seq::empty()),
            forall|rest: Seq<(Seq<char>, u64)>| #[trigger] replay_positions(bk, game.winner, ms, k as int, rest)
                ==> replay_positions(b0, game.winner, ms, 0, out@.map_values(|p: (String, u64)| (p.0@, p.1)) + rest),
        decreases ms.len() - k,
    {
        let mv = &game.moves[k];
        assert(ms[k as int] == mv@);
        let seen = count_before(&game.moves, k + 1, mv);
        if seen >= 5 {
            break;
        }
        if board.parse_fails_hard(mv.as_str()) {
            break;
        }
        let action = match board.parse_action(mv.as_str()) {
            Ok(a) => a,
            Err(_) => {
                break;
            },
        };
        if !board.has_few_pieces() {
            break;
        }
        if !board.is_legal(action) {
            break;
        }
        if !board.can_play(action) {
            break;
        }
        let ghost bb = board;
        proof {
            board.lemma_wf_model();
            lemma_undo_inverts_do(bb@, action);
        }
        board.do_action(action);
        if !board.is_replayable() {
            break;
        }
        let pos = board.game_string();
        let c = board.color();
        let score: u64 = match game.winner {
            Some(w) => if w == c {
                2
            } else {
                0
            },
            None => 1,
        };
        let ghost prev = out@.map_values(|p: (String, u64)| (p.0@, p.1));
        let ghost item = (pos@, score);
        out.push((pos, score));
        proof {
            assert(out@.map_values(|p: (String, u64)| (p.0@, p.1)) =~= prev.push(item));
            assert forall|rest: Seq<(Seq<char>, u64)>| #[trigger] replay_positions(board, game.winner, ms, k + 1, rest)
                implies replay_positions(b0, game.winner, ms, 0, out@.map_values(|p: (String, u64)| (p.0@, p.1)) + rest) by {
                let full = seq![item] + rest;
                assert(full.drop_first() =~= rest);
                assert(board.wf());
                assert(replay_positions(bb, game.winner, ms, k as int, full));
                assert(prev + full =~= out@.map_values(|p: (String, u64)| (p.0@, p.1)) + rest);
            }
        }
        k += 1;
        proof {
            bk = board;
        }
    }
    proof {
        let empty = Seq::<(Seq<char>, u64)>::empty();
        assert(replay_positions(bk, game.winner, ms, k as int, empty));
        assert(out@.map_values(|p: (String, u64)| (p.0@, p.1)) + empty =~= out@.map_values(|p: (String, u64)| (p.0@, p.1)));
        assert(game_view(*game).2 == ms);
        assert(game_read(game_view(*game).1, b0));
        assert(replay_positions(b0, game_view(*game).0, game_view(*game).2, 0, out@.map_values(|p: (String, u64)| (p.0@, p.1))));
    }
    out
}

/// A position with its totals: half points for the side to move summed
/// over its occurrences, and the number of occurrences.
pub struct PositionScore {
    pub position: String,
    pub half_points: u64,
    pub count: u64,
}

/// The view of a position's totals.
pub open spec fn score_view(p: PositionScore) -> (Seq<char>, u64, u64) {
    (p.position@, p.half_points, p.count)
}

/// The views of games.
pub open spec fn games_view(gs: Seq<ParsedGame>) -> Seq<(Option<Color>, Seq<char>, Seq<Seq<char>>)> {
    gs.map_values(|g: ParsedGame| game_view(g))
}

/// The views of positions' totals.
pub open spec fn scores_view(r: Seq<PositionScore>) -> Seq<(Seq<char>, u64, u64)> {
    r.map_values(|x: PositionScore| score_view(x))
}

/// `a + b`, or `u64::MAX` when that does not fit.
pub open spec fn sat_add(a: u64, b: u64) -> u64 {
    if a + b > u64::MAX {
        u64::MAX
    } else {
        (a + b) as u64
    }
}

/// The first index among the first `n` of `agg` of the position `p`.
pub open spec fn index_of_pos(agg: Seq<(Seq<char>, u64, u64)>, p: Seq<char>, n: int) -> Option<int>
    decreases n,
{
    if n <= 0 {
        None
    } else {
        match index_of_pos(agg, p, n - 1) {
            Some(i) => Some(i),
            None => if agg[n - 1].0 == p {
                Some(n - 1)
            } else {
                None
            },
        }
    }
}

/// The positions of the list `l` in the order they first occur, each with
/// its half points summed and its occurrences counted (both saturating).
pub open spec fn aggregate(l: Seq<(Seq<char>, u64)>) -> Seq<(Seq<char>, u64, u64)>
    decreases l.len(),
{
    if l.len() == 0 {
        Seq::empty()
    } else {
        let (p, s) = l.last();
        add_total(aggregate(l.drop_last()), p, s, 1)
    }
}

/// The lists of `outs`, one after the other.
pub open spec fn concat_all(outs: Seq<Seq<(Seq<char>, u64)>>, n: int) -> Seq<(Seq<char>, u64)>
    decreases n,
{
    if n <= 0 {
        Seq::empty()
    } else {
        concat_all(outs, n - 1) + outs[n - 1]
    }
}

/// `r` is what the games `gs`, replayed in the order `order`, give: the
/// positions each records (see `game_positions_ok`), one game after the
/// other, with their totals (see `aggregate`).
pub open spec fn positions_ok(
    gs: Seq<(Option<Color>, Seq<char>, Seq<Seq<char>>)>,
    order: Seq<usize>,
    r: Seq<(Seq<char>, u64, u64)>,
) -> bool {
    exists|outs: Seq<Seq<(Seq<char>, u64)>>|
        #[trigger] concat_all(outs, outs.len() as int) == concat_all(outs, order.len() as int) && outs.len() == order.len()
            && (forall|j: int| 0 <= j < order.len() ==> game_positions_ok(gs[order[j] as int], #[trigger] outs[j]))
            && r == aggregate(concat_all(outs, order.len() as int))
}

/// The totals `a` with `n` more occurrences of `p` worth `s` half points
/// in all: added to `p`'s totals where `a` has it, else `p` put last.
pub open spec fn add_total(a: Seq<(Seq<char>, u64, u64)>, p: Seq<char>, s: u64, n: u64) -> Seq<(Seq<char>, u64, u64)> {
    match index_of_pos(a, p, a.len() as int) {
        Some(i) => a.update(i, (p, sat_add(a[i].1, s), sat_add(a[i].2, n))),
        None => a.push((p, s, n)),
    }
}

/// Adds `n` occurrences of `p` worth `s` half points in all to the totals
/// `acc` (see `add_total`).
fn add_totals(acc: &mut Vec<PositionScore>, p: String, s: u64, n: u64)
    ensures
        scores_view(final(acc)@) == add_total(scores_view(old(acc)@), p@, s, n),
{
    let ghost a = scores_view(acc@);
    let mut i: usize = 0;
    while i < acc.len()
        invariant
            a == scores_view(acc@),
            acc@ == old(acc)@,
            0 <= i <= acc@.len(),
            index_of_pos(a, p@, i as int) is None,
        decreases acc@.len() - i,
    {
        if acc[i].position == p {
            assert(index_of_pos(a, p@, i + 1) == Some(i as int));
            proof {
                lemma_index_of_pos_stays(a, p@, i + 1, a.len() as int);
            }
            let h = acc[i].half_points;
            let c = acc[i].count;
            let nh = h.saturating_add(s);
            let nc = c.saturating_add(n);
            assert(nh == sat_add(a[i as int].1, s) && nc == sat_add(a[i as int].2, n));
            let ghost pv = p@;
            acc.set(i, PositionScore { position: p, half_points: nh, count: nc });
            proof {
                assert(scores_view(acc@) =~= a.update(i as int, (pv, sat_add(a[i as int].1, s), sat_add(a[i as int].2, n))));
            }
            return;
        }
        i += 1;
    }
    let ghost pv = p@;
    acc.push(PositionScore { position: p, half_points: s, count: n });
    proof {
        assert(scores_view(acc@) =~= a.push((pv, s, n)));
    }
}

/// The totals `a` with those of `l` added, one after the other (see
/// `add_total`).
pub open spec fn merged(a: Seq<(Seq<char>, u64, u64)>, l: Seq<(Seq<char>, u64, u64)>) -> Seq<(Seq<char>, u64, u64)>
    decreases l.len(),
{
    if l.len() == 0 {
        a
    } else {
        let m = merged(a, l.drop_last());
        add_total(m, l.last().0, l.last().1, l.last().2)
    }
}

/// Adds the totals `more` (of another results file, say) to `acc` (see
/// `merged`).
pub fn merge_scores(acc: &mut Vec<PositionScore>, more: &Vec<PositionScore>)
    ensures
        scores_view(final(acc)@) == merged(scores_view(old(acc)@), scores_view(more@)),
{
    let ghost a0 = scores_view(acc@);
    let ghost l = scores_view(more@);
    let mut t: usize = 0;
    assert(l.take(0) =~= Seq::<(Seq<char>, u64, u64)>::empty());
    while t < more.len()
        invariant
            l == scores_view(more@),
            0 <= t <= more@.len(),
            scores_view(acc@) == merged(a0, l.take(t as int)),
        decreases more@.len() - t,
    {
        let p = more[t].position.clone();
        let h = more[t].half_points;
        let c = more[t].count;
        proof {
            assert(l.take(t + 1).drop_last() =~= l.take(t as int));
            assert(l.take(t + 1).last() == l[t as int]);
        }
        add_totals(acc, p, h, c);
        t += 1;
    }
    assert(l.take(more@.len() as int) =~= l);
}

/// A position found among the first `m` is found at the same index among
/// the first `n`.
proof fn lemma_index_of_pos_stays(a: Seq<(Seq<char>, u64, u64)>, p: Seq<char>, m: int, n: int)
    requires
        m <= n,
        index_of_pos(a, p, m) is Some,
    ensures
        index_of_pos(a, p, n) == index_of_pos(a, p, m),
    decreases n - m,
{
    if m < n {
        lemma_index_of_pos_stays(a, p, m, n - 1);
    }
}

/// The training positions of the games `games` replayed in the order
/// `order` (see `positions_ok`): each position once, in the order it is
/// first reached, with its half points and occurrences.
pub fn positions_from_games(games: &Vec<ParsedGame>, order: &Vec<usize>) -> (r: Vec<PositionScore>)
    requires
        forall|j: int| 0 <= j < order@.len() ==> #[trigger] order@[j] < games@.len(),
    ensures
        positions_ok(games_view(games@), order@, scores_view(r@)),
{
    let ghost gs = games_view(games@);
    let ghost mut outs: Seq<Seq<(Seq<char>, u64)>> = Seq::empty();
    let mut acc: Vec<PositionScore> = Vec::new();
    let mut j: usize = 0;
    while j < order.len()
        invariant
            gs == games_view(games@),
            forall|q: int| 0 <= q < order@.len() ==> #[trigger] order@[q] < games@.len(),
            0 <= j <= order@.len(),
            outs.len() == j,
            forall|q: int| 0 <= q < j ==> game_positions_ok(gs[order@[q] as int], #[trigger] outs[q]),
            acc@.map_values(|x: PositionScore| score_view(x)) == aggregate(concat_all(outs, j as int)),
        decreases order@.len() - j,
    {
        let g = &games[order[j]];
        assert(gs[order@[j as int] as int] == game_view(*g));
        let ps = game_positions(g);
        let ghost out = ps@.map_values(|p: (String, u64)| (p.0@, p.1));
        let ghost before = concat_all(outs, j as int);
        for t in 0..ps.len()
            invariant
                out == ps@.map_values(|p: (String, u64)| (p.0@, p.1)),
                acc@.map_values(|x: PositionScore| score_view(x)) == aggregate(before + out.take(t as int)),
        {
            let p = ps[t].0.clone();
            let s = ps[t].1;
            proof {
                assert((before + out.take(t + 1)).drop_last() =~= before + out.take(t as int));
                assert((before + out.take(t + 1)).last() == out[t as int]);
            }
            add_totals(&mut acc, p, s, 1);
        }
        proof {
            assert(out.take(ps@.len() as int) =~= out);
            let outs2 = outs.push(out);
            assert(concat_all(outs2, j as int) =~= concat_all(outs, j as int)) by {
                lemma_concat_all_prefix(outs, outs2, j as int);
            }
            outs = outs2;
        }
        j += 1;
    }
    proof {
        assert(concat_all(outs, outs.len() as int) == concat_all(outs, order@.len() as int));
    }
    acc
}

/// `concat_all` of the first `n` lists only reads those lists.
proof fn lemma_concat_all_prefix(a: Seq<Seq<(Seq<char>, u64)>>, b: Seq<Seq<(Seq<char>, u64)>>, n: int)
    requires
        0 <= n <= a.len(),
        n <= b.len(),
        forall|i: int| 0 <= i < n ==> a[i] == b[i],
    ensures
        concat_all(a, n) == concat_all(b, n),
    decreases n,
{
    if n > 0 {
        lemma_concat_all_prefix(a, b, n - 1);
    }
}

/// `rand`'s `SliceRandom::shuffle` with the thread's generator: the items
/// of `v` in an order picked at random, each kept as often as it was there.
#[verifier::external_body]
fn shuffle_indices(v: &mut Vec<usize>)
    ensures
        final(v)@.to_multiset() == old(v)@.to_multiset(),
{
    v.shuffle(&mut rand::rng());
}

/// The indices of `n` games, `0..n`.
pub open spec fn all_indices(n: usize) -> Seq<usize> {
    Seq::new(n as nat, |i: int| i as usize)
}

/// The order in which `n` games are replayed: all of them shuffled, cut
/// to the first `cap` when `cap` is positive and below `n`.
pub fn shuffled_order(n: usize, cap: usize) -> (r: Vec<usize>)
    ensures
        r@.len() == if cap > 0 && n > cap {
            cap as int
        } else {
            n as int
        },
        forall|j: int| 0 <= j < r@.len() ==> #[trigger] r@[j] < n,
        exists|s: Seq<usize>| #[trigger] s.to_multiset() == all_indices(n).to_multiset() && s.take(r@.len() as int) == r@,
{
    let mut v: Vec<usize> = Vec::new();
    let mut i: usize = 0;
    while i < n
        invariant
            0 <= i <= n,
            v@ == all_indices(n).take(i as int),
        decreases n - i,
    {
        v.push(i);
        i += 1;
        proof {
            assert(v@ =~= all_indices(n).take(i as int));
        }
    }
    assert(v@ =~= all_indices(n));
    shuffle_indices(&mut v);
    let ghost s = v@;
    proof {
        broadcast use vstd::seq_lib::group_to_multiset_ensures;
        assert forall|j: int| 0 <= j < s.len() implies #[trigger] s[j] < n by {
            assert(s.contains(s[j]));
            assert(s.to_multiset().count(s[j]) > 0);
            assert(all_indices(n).contains(s[j]));
        }
        assert(s.len() == s.to_multiset().len());
        assert(all_indices(n).len() == all_indices(n).to_multiset().len());
        assert(s.len() == n);
    }
    if cap > 0 && n > cap {
        v.truncate(cap);
    }
    assert(s.take(v@.len() as int) =~= v@);
    v
}

/// The training positions of the games `games`, replayed in an order
/// picked at random, the first `cap` of them when `cap` is positive and
/// below their number (see `shuffled_order` and `positions_from_games`).
pub fn positions_from_results(games: &Vec<ParsedGame>, cap: usize) -> (r: Vec<PositionScore>)
    ensures
        exists|order: Seq<usize>|
            #[trigger] positions_ok(games_view(games@), order, scores_view(r@))
                && order.len() == (if cap > 0 && games@.len() > cap { cap as int } else { games@.len() as int })
                && exists|s: Seq<usize>| #[trigger] s.to_multiset() == all_indices(games.len()).to_multiset() && s.take(order.len() as int) == order,
{
    let order = shuffled_order(games.len(), cap);
    let r = positions_from_games(games, &order);
    r
}

/// The next item of `g` from `c` on that is not in `seen`: the place
/// after it and the item; the end of `g` and none when there is none.
pub open spec fn next_unseen(g: Seq<Seq<char>>, c: int, seen: Seq<Seq<char>>) -> (int, Option<Seq<char>>)
    decreases g.len() - c,
{
    if c < 0 || c >= g.len() {
        (c, None)
    } else if seen.contains(g[c]) {
        next_unseen(g, c + 1, seen)
    } else {
        (c + 1, Some(g[c]))
    }
}

/// One round from the `i`-th group on: each group in turn adds its next
/// item not yet taken, the places `cs` moving on.
pub open spec fn round(gs: Seq<Seq<Seq<char>>>, cs: Seq<int>, out: Seq<Seq<char>>, i: int) -> (Seq<int>, Seq<Seq<char>>)
    decreases gs.len() - i,
{
    if i < 0 || i >= gs.len() {
        (cs, out)
    } else {
        let (c2, x) = next_unseen(gs[i], cs[i], out);
        let out2 = match x {
            Some(p) => out.push(p),
            None => out,
        };
        round(gs, cs.update(i, c2), out2, i + 1)
    }
}

/// Every group is used up.
pub open spec fn all_done(gs: Seq<Seq<Seq<char>>>, cs: Seq<int>) -> bool {
    forall|i: int| 0 <= i < gs.len() ==> cs[i] >= #[trigger] gs[i].len()
}

/// What `k` more rounds take, stopping when every group is used up.
pub open spec fn rounds(gs: Seq<Seq<Seq<char>>>, cs: Seq<int>, out: Seq<Seq<char>>, k: nat) -> Seq<Seq<char>>
    decreases k,
{
    if k == 0 || all_done(gs, cs) {
        out
    } else {
        let (cs2, out2) = round(gs, cs, out, 0);
        rounds(gs, cs2, out2, (k - 1) as nat)
    }
}

/// The positions of the groups `gs` taken in turn, each group giving its
/// next position not yet taken, for `k` rounds or until all are used up.
pub open spec fn interleave_spec(gs: Seq<Seq<Seq<char>>>, k: nat) -> Seq<Seq<char>> {
    rounds(gs, Seq::new(gs.len(), |i: int| 0int), Seq::empty(), k)
}

/// Whether `out` holds `x`.
fn holds(out: &Vec<String>, x: &String) -> (r: bool)
    ensures
        r == out@.map_values(|s: String| s@).contains(x@),
{
    let ghost v = out@.map_values(|s: String| s@);
    let mut i: usize = 0;
    while i < out.len()
        invariant
            v == out@.map_values(|s: String| s@),
            0 <= i <= out@.len(),
            forall|j: int| 0 <= j < i ==> v[j] != x@,
        decreases out@.len() - i,
    {
        if out[i] == *x {
            assert(v[i as int] == x@);
            return true;
        }
        i += 1;
    }
    false
}

/// The views of groups of positions.
pub open spec fn groups_view(gs: Seq<Vec<String>>) -> Seq<Seq<Seq<char>>> {
    gs.map_values(|g: Vec<String>| g@.map_values(|s: String| s@))
}

/// The positions of the groups `groups` taken in turn, each once: each
/// group in turn gives its next position not taken yet, until every group
/// is used up or `max_rounds` rounds are done (see `interleave_spec`).
pub fn interleave_unique(groups: &Vec<Vec<String>>, max_rounds: u64) -> (r: Vec<String>)
    ensures
        r@.map_values(|s: String| s@) == interleave_spec(groups_view(groups@), max_rounds as nat),
{
    let ghost gs = groups_view(groups@);
    let n = groups.len();
    let mut cs: Vec<usize> = Vec::new();
    let mut t: usize = 0;
    while t < n
        invariant
            0 <= t <= n,
            n == groups@.len(),
            cs@.len() == t,
            forall|j: int| 0 <= j < t ==> cs@[j] == 0,
        decreases n - t,
    {
        cs.push(0);
        t += 1;
    }
    let ghost cs0 = cs@.map_values(|c: usize| c as int);
    assert(cs0 =~= Seq::new(gs.len(), |i: int| 0int));
    let mut out: Vec<String> = Vec::new();
    let mut r: u64 = 0;
    assert(out@.map_values(|s: String| s@) =~= Seq::<Seq<char>>::empty());
    loop
        invariant
            gs == groups_view(groups@),
            n == groups@.len(),
            cs@.len() == n,
            forall|j: int| 0 <= j < n ==> #[trigger] cs@[j] <= groups@[j]@.len(),
            r <= max_rounds,
            rounds(gs, cs@.map_values(|c: usize| c as int), out@.map_values(|s: String| s@), (max_rounds - r) as nat)
                == interleave_spec(gs, max_rounds as nat),
        decreases max_rounds - r,
    {
        let ghost csv = cs@.map_values(|c: usize| c as int);
        let ghost outv = out@.map_values(|s: String| s@);
        // every group used up?
        let mut done = true;
        let mut q: usize = 0;
        while q < n
            invariant
                n == groups@.len(),
                cs@.len() == n,
                0 <= q <= n,
                csv == cs@.map_values(|c: usize| c as int),
                gs == groups_view(groups@),
                done == (forall|j: int| 0 <= j < q ==> csv[j] >= #[trigger] gs[j].len()),
            decreases n - q,
        {
            assert(gs[q as int].len() == groups@[q as int]@.len());
            assert(csv[q as int] == cs@[q as int]);
            if cs[q] < groups[q].len() {
                done = false;
            }
            q += 1;
        }
        if done || r == max_rounds {
            return out;
        }
        let mut i: usize = 0;
        while i < n
            invariant
                gs == groups_view(groups@),
                n == groups@.len(),
                cs@.len() == n,
                0 <= i <= n,
                forall|j: int| 0 <= j < n ==> #[trigger] cs@[j] <= groups@[j]@.len(),
                round(gs, cs@.map_values(|c: usize| c as int), out@.map_values(|s: String| s@), i as int) == round(gs, csv, outv, 0),
            decreases n - i,
        {
            let g = &groups[i];
            let mut c = cs[i];
            let ghost seen = out@.map_values(|s: String| s@);
            let ghost gv = gs[i as int];
            assert(gv == g@.map_values(|s: String| s@));
            while c < g.len() && holds(&out, &g[c])
                invariant
                    gv == g@.map_values(|s: String| s@),
                    seen == out@.map_values(|s: String| s@),
                    cs@[i as int] <= c <= g@.len(),
                    next_unseen(gv, c as int, seen) == next_unseen(gv, cs@[i as int] as int, seen),
                decreases g@.len() - c,
            {
                c += 1;
            }
            let ghost csv_i = cs@.map_values(|x: usize| x as int);
            if c < g.len() {
                out.push(g[c].clone());
                cs.set(i, c + 1);
                proof {
                    assert(out@.map_values(|s: String| s@) =~= seen.push(gv[c as int]));
                }
            } else {
                cs.set(i, c);
            }
            proof {
                assert(cs@.map_values(|x: usize| x as int) =~= csv_i.update(i as int, next_unseen(gv, csv_i[i as int], seen).0));
            }
            i += 1;
        }
        r += 1;
    }
}

/// `c` in lower case, for ASCII letters.
pub open spec fn ascii_lower(c: char) -> char {
    if 'A' <= c <= 'Z' {
        ((c as u32) + 32) as char
    } else {
        c
    }
}

/// `s` holds `pat`, comparing ASCII letters without case (`pat` in lower
/// case).
pub open spec fn holds_word(s: Seq<char>, pat: Seq<char>) -> bool {
    exists|i: int| 0 <= i && i + pat.len() <= s.len() && #[trigger] word_at(s, i, pat)
}

/// The letters of `s` from `i` on, in lower case, are `pat`.
pub open spec fn word_at(s: Seq<char>, i: int, pat: Seq<char>) -> bool {
    s.subrange(i, i + pat.len()).map_values(|c: char| ascii_lower(c)) == pat
}

/// The winner a results file names: white, black, or none for a draw;
/// nothing when it names none of these (checked in this order).
pub open spec fn winner_spec(s: Seq<char>) -> Option<Option<Color>> {
    if holds_word(s, seq!['w', 'h', 'i', 't', 'e']) {
        Some(Some(Color::White))
    } else if holds_word(s, seq!['b', 'l', 'a', 'c', 'k']) {
        Some(Some(Color::Black))
    } else if holds_word(s, seq!['d', 'r', 'a', 'w']) {
        Some(None)
    } else {
        None
    }
}

/// The game type the results files keep.
pub open spec fn kept_type() -> Seq<char> {
    seq!['B', 'a', 's', 'e', '+', 'M', 'L', 'P']
}

/// The game of a final game string `state` (fields separated by `;`: the
/// game type, the state, the turn, then the moves) won by `winner`: none
/// unless it has a move, is of the kept game type and names a winner.
pub open spec fn game_from_spec(state: Seq<char>, winner: Seq<char>) -> Option<(Option<Color>, Seq<char>, Seq<Seq<char>>)> {
    let parts = crate::board_io::split(state, ';');
    if parts.len() < 4 || parts[0] != kept_type() || winner_spec(winner) is None {
        None
    } else {
        Some((winner_spec(winner)->0, parts[0], parts.skip(3)))
    }
}

fn lower(c: char) -> (r: char)
    ensures
        r == ascii_lower(c),
{
    if 'A' <= c && c <= 'Z' {
        let u = (c as u32) + 32;
        assert(u < 0xD800);
        char_from(u)
    } else {
        c
    }
}

/// `char::from_u32` on a value that is a character.
#[verifier::external_body]
fn char_from(u: u32) -> (r: char)
    requires
        u < 0xD800,
    ensures
        r as u32 == u,
{
    char::from_u32(u).unwrap()
}

/// Whether `s` holds the lower-case word `pat`, without case.
fn has_word(s: &Vec<char>, pat: &Vec<char>) -> (r: bool)
    ensures
        r == holds_word(s@, pat@),
{
    if pat.len() > s.len() {
        assert forall|i: int| 0 <= i && i + pat@.len() <= s@.len() implies !#[trigger] word_at(s@, i, pat@) by {}
        return false;
    }
    let sl = s.len();
    let mut i: usize = 0;
    while i <= s.len() - pat.len()
        invariant
            sl == s@.len(),
            pat@.len() <= s@.len(),
            0 <= i <= s@.len() - pat@.len() + 1,
            forall|k: int| 0 <= k < i ==> !#[trigger] word_at(s@, k, pat@),
        decreases s@.len() - i,
    {
        let mut j: usize = 0;
        let mut same = true;
        while j < pat.len()
            invariant
                sl == s@.len(),
                i + pat@.len() <= s@.len(),
                0 <= j <= pat@.len(),
                same == (forall|m: int| 0 <= m < j ==> ascii_lower(s@[i + m]) == pat@[m]),
            decreases pat@.len() - j,
        {
            assert(i + j < s@.len());
            if lower(s[i + j]) != pat[j] {
                same = false;
            }
            j += 1;
        }
        let ghost w = s@.subrange(i as int, i + pat@.len()).map_values(|c: char| ascii_lower(c));
        if same {
            assert(w =~= pat@);
            assert(word_at(s@, i as int, pat@));
            return true;
        }
        proof {
            let m = choose|m: int| 0 <= m < pat@.len() && ascii_lower(s@[i + m]) != pat@[m];
            assert(w[m] != pat@[m]);
        }
        i += 1;
    }
    false
}

/// The game of the final game string `state` won by `winner` (see
/// `game_from_spec`).
pub fn game_from(state: &str, winner: &str) -> (r: Option<ParsedGame>)
    ensures
        match r {
            Some(g) => game_from_spec(state@, winner@) == Some(game_view(g)),
            None => game_from_spec(state@, winner@) is None,
        },
{
    let cs = crate::board_io::chars_of(state);
    let parts = crate::board_io::split_chars(&cs, ';');
    if parts.len() < 4 {
        return None;
    }
    let kept: Vec<char> = vec!['B', 'a', 's', 'e', '+', 'M', 'L', 'P'];
    let mut same = parts[0].len() == kept.len();
    let mut k: usize = 0;
    while same && k < kept.len()
        invariant
            parts@.len() >= 4,
            same ==> parts@[0]@.len() == kept@.len(),
            0 <= k <= kept@.len(),
            same == (parts@[0]@.len() == kept@.len() && forall|m: int| 0 <= m < k ==> parts@[0]@[m] == kept@[m]),
        decreases kept@.len() - k,
    {
        if parts[0][k] != kept[k] {
            same = false;
        }
        k += 1;
    }
    assert(kept@ == kept_type());
    if !same {
        assert(parts@[0]@ != kept_type()) by {
            if parts@[0]@.len() == kept@.len() {
                let m = choose|m: int| 0 <= m < k && parts@[0]@[m] != kept@[m];
            }
        }
        return None;
    }
    assert(parts@[0]@ =~= kept_type());
    let w = crate::board_io::chars_of(winner);
    let white: Vec<char> = vec!['w', 'h', 'i', 't', 'e'];
    let black: Vec<char> = vec!['b', 'l', 'a', 'c', 'k'];
    let draw: Vec<char> = vec!['d', 'r', 'a', 'w'];
    let result = if has_word(&w, &white) {
        Some(Color::White)
    } else if has_word(&w, &black) {
        Some(Color::Black)
    } else if has_word(&w, &draw) {
        None
    } else {
        return None;
    };
    let mut moves: Vec<String> = Vec::new();
    let mut t: usize = 3;
    while t < parts.len()
        invariant
            3 <= t <= parts@.len(),
            moves@.len() == t - 3,
            forall|m: int| 0 <= m < moves@.len() ==> #[trigger] moves@[m]@ == parts@[m + 3]@,
        decreases parts@.len() - t,
    {
        moves.push(crate::board_io::string_of(&parts[t]));
        t += 1;
    }
    let g = ParsedGame { winner: result, gametype: crate::board_io::string_of(&parts[0]), moves };
    assert(game_view(g).2 =~= crate::board_io::split(state@, ';').skip(3));
    Some(g)
}

} // verus!
