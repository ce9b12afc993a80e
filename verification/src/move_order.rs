//! The order in which the search tries moves, and what a cut teaches it:
//! killer moves, the countermove and the history table.

use vstd::prelude::*;
use crate::action::{Action, ActionKind};
use crate::board::{Board, color_of_turn, is_noisy_spec};
use crate::engine::{hist_index, hist_index_spec, last_move_index, last_move_slot, move_classes};
use crate::search_rules::{Killers, killer_count, killer_count_spec, killers_after, remember_killer};
use crate::engine::Depth;
use crate::eval::Value;
use crate::piece::Color;
use crate::tile::GRID_SIZE;

verus! {

/// A move with what its ordering reads of it.
#[derive(Copy, Clone, Debug, PartialEq, Eq, Structural)]
pub struct MoveInfo {
    pub mv: Action,
    pub quiet: bool,
    pub killer: u8,
    pub hist: i64,
}

/// The ordering key of a move, smaller first: the principal variation, then
/// noisy moves, then more killer hits, then a higher history score, then the
/// countermove.
pub open spec fn order_key(m: MoveInfo, pv: Action, cm: Action) -> (int, int, int, int, int) {
    (
        if m.mv == pv { 0 } else { 1 },
        if m.quiet { 1 } else { 0 },
        -(m.killer as int),
        -(m.hist as int),
        if m.mv == cm { 0 } else { 1 },
    )
}

/// The lexicographic order of keys.
pub open spec fn key_lt(a: (int, int, int, int, int), b: (int, int, int, int, int)) -> bool {
    ||| a.0 < b.0
    ||| a.0 == b.0 && a.1 < b.1
    ||| a.0 == b.0 && a.1 == b.1 && a.2 < b.2
    ||| a.0 == b.0 && a.1 == b.1 && a.2 == b.2 && a.3 < b.3
    ||| a.0 == b.0 && a.1 == b.1 && a.2 == b.2 && a.3 == b.3 && a.4 < b.4
}

/// Whether `a` is tried strictly before `b`.
pub open spec fn goes_before(a: MoveInfo, b: MoveInfo, pv: Action, cm: Action) -> bool {
    key_lt(order_key(a, pv, cm), order_key(b, pv, cm))
}

/// `p` takes `s` to `r`: `r[j]` is `s[p[j]]`, no index taken twice, no move
/// after one it goes before, and tied moves in their order in `s`.
pub open spec fn is_stable_order(p: Seq<int>, r: Seq<MoveInfo>, s: Seq<MoveInfo>, pv: Action, cm: Action) -> bool {
    &&& p.len() == r.len()
    &&& r.len() == s.len()
    &&& forall|j: int| 0 <= j < p.len() ==> 0 <= #[trigger] p[j] < s.len() && r[j] == s[p[j]]
    &&& forall|j: int, l: int| 0 <= j < l < p.len() ==> #[trigger] p[j] != #[trigger] p[l]
    &&& forall|j: int, l: int|
        0 <= j < l < r.len() ==> !goes_before(#[trigger] r[l], #[trigger] r[j], pv, cm)
    &&& forall|j: int, l: int|
        0 <= j < l < r.len() && !goes_before(#[trigger] r[j], #[trigger] r[l], pv, cm) ==> p[j] < p[l]
}

/// `r` is `s` sorted stably by `goes_before`.
pub open spec fn stably_ordered(r: Seq<MoveInfo>, s: Seq<MoveInfo>, pv: Action, cm: Action) -> bool {
    exists|p: Seq<int>| is_stable_order(p, r, s, pv, cm)
}

proof fn lemma_key_order(a: (int, int, int, int, int), b: (int, int, int, int, int), c: (int, int, int, int, int))
    ensures
        key_lt(a, b) ==> !key_lt(b, a),
        !key_lt(b, a) && !key_lt(c, b) ==> !key_lt(c, a),
        key_lt(a, b) && !key_lt(c, b) ==> key_lt(a, c) || !key_lt(c, a),
{
}

fn goes_before_exec(a: &MoveInfo, b: &MoveInfo, pv: Action, cm: Action) -> (r: bool)
    ensures
        r == goes_before(*a, *b, pv, cm),
{
    if (a.mv == pv) != (b.mv == pv) {
        return a.mv == pv;
    }
    if a.quiet != b.quiet {
        return !a.quiet;
    }
    if a.killer != b.killer {
        return a.killer > b.killer;
    }
    if a.hist != b.hist {
        return a.hist > b.hist;
    }
    a.mv == cm && b.mv != cm
}

/// Sorts `infos` stably by `goes_before`.
pub fn sort_moves(infos: Vec<MoveInfo>, pv: Action, cm: Action) -> (r: Vec<MoveInfo>)
    ensures
        stably_ordered(r@, infos@, pv, cm),
{
    let mut out: Vec<MoveInfo> = Vec::new();
    let ghost mut p: Seq<int> = Seq::empty();
    let mut i: usize = 0;
    while i < infos.len()
        invariant
            0 <= i <= infos@.len(),
            out@.len() == i,
            p.len() == i,
            forall|j: int| 0 <= j < i ==> 0 <= #[trigger] p[j] < i && out@[j] == infos@[p[j]],
            forall|j: int, l: int| 0 <= j < l < i ==> #[trigger] p[j] != #[trigger] p[l],
            forall|j: int, l: int|
                0 <= j < l < i ==> !goes_before(#[trigger] out@[l], #[trigger] out@[j], pv, cm),
            forall|j: int, l: int|
                0 <= j < l < i && !goes_before(#[trigger] out@[j], #[trigger] out@[l], pv, cm) ==> p[j] < p[l],
        decreases infos@.len() - i,
    {
        let x = infos[i];
        let mut k: usize = out.len();
        while k > 0 && goes_before_exec(&x, &out[k - 1], pv, cm)
            invariant
                k <= out@.len(),
                forall|m: int| k <= m < out@.len() ==> goes_before(x, #[trigger] out@[m], pv, cm),
            decreases k,
        {
            k -= 1;
        }
        let ghost old_out = out@;
        let ghost old_p = p;
        out.insert(k, x);
        proof {
            p = old_p.insert(k as int, i as int);
            assert(out@ == old_out.insert(k as int, x));
            assert forall|j: int, l: int|
                0 <= j < l < i + 1 implies !goes_before(#[trigger] out@[l], #[trigger] out@[j], pv, cm) by {
                let kj = order_key(out@[j], pv, cm);
                let kl = order_key(out@[l], pv, cm);
                let kx = order_key(x, pv, cm);
                if l == k {
                    // out[j] <= out[k - 1] <= x
                    let kk = order_key(old_out[k - 1], pv, cm);
                    if j < k - 1 {
                        lemma_key_order(kj, kk, kx);
                    }
                } else if j == k {
                    lemma_key_order(kx, kl, kx);
                } else {
                    let oj = if j < k { j } else { j - 1 };
                    let ol = if l < k { l } else { l - 1 };
                    assert(out@[j] == old_out[oj]);
                    assert(out@[l] == old_out[ol]);
                }
            }
            assert forall|j: int, l: int|
                0 <= j < l < i + 1 && !goes_before(#[trigger] out@[j], #[trigger] out@[l], pv, cm) implies p[j] < p[l] by {
                if l == k {
                } else if j == k {
                } else {
                    let oj = if j < k { j } else { j - 1 };
                    let ol = if l < k { l } else { l - 1 };
                    assert(out@[j] == old_out[oj]);
                    assert(out@[l] == old_out[ol]);
                    assert(p[j] == old_p[oj]);
                    assert(p[l] == old_p[ol]);
                }
            }
            assert forall|j: int| 0 <= j < i + 1 implies 0 <= #[trigger] p[j] < i + 1 && out@[j] == infos@[p[j]] by {
                if j < k {
                    assert(p[j] == old_p[j]);
                } else if j > k {
                    assert(p[j] == old_p[j - 1]);
                }
            }
            assert forall|j: int, l: int| 0 <= j < l < i + 1 implies #[trigger] p[j] != #[trigger] p[l] by {
                let oj = if j < k { j } else { j - 1 };
                let ol = if l < k { l } else { l - 1 };
                if j != k && l != k {
                    assert(p[j] == old_p[oj]);
                    assert(p[l] == old_p[ol]);
                } else if j == k {
                    assert(p[l] == old_p[ol]);
                } else {
                    assert(p[j] == old_p[oj]);
                }
            }
        }
        i += 1;
    }
    assert(is_stable_order(p, out@, infos@, pv, cm));
    out
}

/// The moves with what their ordering reads: whether each is quiet on `b`,
/// its killer count and the history score of the player to move.
pub open spec fn move_infos(b: Board, moves: Seq<Action>, history: Seq<i64>, killers: Seq<(Action, u8)>) -> Seq<MoveInfo> {
    Seq::new(
        moves.len(),
        |i: int|
            MoveInfo {
                mv: moves[i],
                quiet: !is_noisy_spec(b@, moves[i]),
                killer: killer_count_spec(killers, moves[i]),
                hist: history[hist_index_spec(color_of_turn(b.turn_num as int), moves[i])],
            },
    )
}

/// The principal variation move, the pass when there is none.
pub open spec fn pv_or_pass(pv: Option<Action>) -> Action {
    match pv {
        Some(a) => a,
        None => Action::spec_from_kind(ActionKind::Pass),
    }
}

/// The moves in the order the search tries them (see `goes_before`), with
/// the countermove of the previous move taken from `countermove`.
pub fn order_moves(
    board: &Board,
    moves: Vec<Action>,
    history: &Vec<i64>,
    countermove: &Vec<Action>,
    pv: Option<Action>,
    killers: &Killers,
) -> (r: Vec<MoveInfo>)
    requires
        board.wf(),
        forall|i: int| 0 <= i < moves@.len() ==> (#[trigger] moves@[i]).wf(),
        history@.len() > 2 * move_classes() * GRID_SIZE,
        countermove@.len() > 2 * move_classes() * GRID_SIZE,
    ensures
        stably_ordered(
            r@,
            move_infos(*board, moves@, history@, killers@),
            pv_or_pass(pv),
            countermove@[last_move_slot(*board)],
        ),
{
    let pv = match pv {
        Some(a) => a,
        None => Action::Pass(),
    };
    let cm = countermove[last_move_index(board)];
    let color = board.color();
    let mut infos: Vec<MoveInfo> = Vec::new();
    let mut i: usize = 0;
    while i < moves.len()
        invariant
            0 <= i <= moves@.len(),
            board.wf(),
            color == color_of_turn(board.turn_num as int),
            forall|j: int| 0 <= j < moves@.len() ==> (#[trigger] moves@[j]).wf(),
            history@.len() > 2 * move_classes() * GRID_SIZE,
            infos@ == move_infos(*board, moves@, history@, killers@).take(i as int),
        decreases moves@.len() - i,
    {
        let mv = moves[i];
        let info = MoveInfo {
            mv,
            quiet: board.is_quiet(&mv),
            killer: killer_count(killers, mv),
            hist: history[hist_index(color, mv)],
        };
        infos.push(info);
        i += 1;
        assert(infos@ =~= move_infos(*board, moves@, history@, killers@).take(i as int));
    }
    assert(infos@ =~= move_infos(*board, moves@, history@, killers@));
    sort_moves(infos, pv, cm)
}

/// The index of the first move of `moves` from `i` on that is `mv`, the
/// length of `moves` when none is.
pub open spec fn first_index_of(moves: Seq<MoveInfo>, mv: Action, i: nat) -> int
    decreases moves.len() - i,
{
    if i >= moves.len() {
        moves.len() as int
    } else if moves[i as int].mv == mv {
        i as int
    } else {
        first_index_of(moves, mv, i + 1)
    }
}

pub proof fn lemma_first_index_of(moves: Seq<MoveInfo>, mv: Action, i: nat)
    requires
        i <= moves.len(),
    ensures
        i <= first_index_of(moves, mv, i) <= moves.len(),
        forall|j: int| i <= j < first_index_of(moves, mv, i) ==> (#[trigger] moves[j]).mv != mv,
        first_index_of(moves, mv, i) < moves.len() ==> moves[first_index_of(moves, mv, i)].mv == mv,
    decreases moves.len() - i,
{
    if i < moves.len() && moves[i as int].mv != mv {
        lemma_first_index_of(moves, mv, i + 1);
    }
}

proof fn lemma_trunc_div(a: int, b: int)
    requires
        b != 0,
    ensures
        trunc_div(a, b) == (if a >= 0 { a / b } else { -((-a) / b) }),
{
    if b < 0 {
        if a >= 0 {
            assert(a / b == -(a / (-b))) by (nonlinear_arith)
                requires
                    b < 0,
                    a >= 0,
            ;
        } else {
            assert((-a) / b == -((-a) / (-b))) by (nonlinear_arith)
                requires
                    b < 0,
                    a < 0,
            ;
        }
    }
}

/// Whether a quiet move is among the first `n` of `moves`.
pub open spec fn has_quiet_before(moves: Seq<MoveInfo>, n: int) -> bool {
    exists|j: int| 0 <= j < n && (#[trigger] moves[j]).quiet
}

/// `a / b` rounded toward zero.
pub open spec fn trunc_div(a: int, b: int) -> int {
    let q = (if a < 0 { -a } else { a }) / (if b < 0 { -b } else { b });
    if (a < 0) != (b < 0) {
        -q
    } else {
        q
    }
}

/// The history table after the first `n` of `moves`, each quiet one losing
/// `dec` (in two's complement) at its history index for `c`.
pub open spec fn penalized(h: Seq<i64>, c: Color, moves: Seq<MoveInfo>, dec: i64, n: int) -> Seq<i64>
    decreases n,
{
    if n <= 0 {
        h
    } else {
        let h1 = penalized(h, c, moves, dec, n - 1);
        let m = moves[n - 1];
        if m.quiet {
            let s = hist_index_spec(c, m.mv);
            h1.update(s, h1[s].wrapping_sub(dec))
        } else {
            h1
        }
    }
}

/// Whether a move that failed high teaches the search: a quiet move other
/// than the principal variation, with the window closed.
pub open spec fn teaches(alpha: Value, beta: Value, pv: Option<Action>, mvi: MoveInfo) -> bool {
    alpha >= beta && mvi.quiet && pv != Some(mvi.mv)
}

/// The history bonus of a cut at `depth`.
pub open spec fn bonus_at(depth: Depth) -> i64 {
    1i64 << depth
}

/// What a cut by the quiet move `mvi` at `depth` teaches: `mvi` becomes a
/// killer and the countermove of the previous move; its history score
/// gains `2^depth`, and each quiet move tried before it loses that bonus
/// divided by `explored_quiet - 1` (both in two's complement). Nothing
/// changes unless the move `teaches`.
pub fn update_heuristics(
    board: &Board,
    history: &mut Vec<i64>,
    countermove: &mut Vec<Action>,
    depth: Depth,
    alpha: Value,
    beta: Value,
    killers: &mut Killers,
    pv: Option<Action>,
    mvi: MoveInfo,
    moves: &[MoveInfo],
    explored_quiet: i64,
)
    requires
        board.wf(),
        mvi.mv.wf(),
        forall|i: int| 0 <= i < moves@.len() ==> (#[trigger] moves@[i]).mv.wf(),
        old(history)@.len() > 2 * move_classes() * GRID_SIZE,
        old(countermove)@.len() > 2 * move_classes() * GRID_SIZE,
        depth < 64,
        teaches(alpha, beta, pv, mvi) && has_quiet_before(moves@, first_index_of(moves@, mvi.mv, 0)) ==> {
            &&& explored_quiet != 1
            &&& explored_quiet != i64::MIN
            &&& !(bonus_at(depth) == i64::MIN && explored_quiet == 0)
        },
    ensures
        teaches(alpha, beta, pv, mvi) ==> {
            let c = color_of_turn(board.turn_num as int);
            let s = hist_index_spec(c, mvi.mv);
            let bonus = bonus_at(depth);
            &&& final(killers)@ == killers_after(old(killers)@, mvi.mv)
            &&& final(countermove)@ == old(countermove)@.update(last_move_slot(*board), mvi.mv)
            &&& final(history)@.len() == old(history)@.len()
            &&& final(countermove)@.len() == old(countermove)@.len()
            &&& final(history)@ == penalized(
                old(history)@.update(s, old(history)@[s].wrapping_add(bonus)),
                c,
                moves@,
                trunc_div(bonus as int, explored_quiet - 1) as i64,
                first_index_of(moves@, mvi.mv, 0),
            )
        },
        !teaches(alpha, beta, pv, mvi) ==> {
            &&& *final(killers) == *old(killers)
            &&& *final(countermove) == *old(countermove)
            &&& *final(history) == *old(history)
        },
{
    let mv = mvi.mv;
    let is_pv = match pv {
        Some(p) => p == mv,
        None => false,
    };
    if alpha >= beta && mvi.quiet && !is_pv {
        remember_killer(killers, mv);
        let cm = last_move_index(board);
        countermove.set(cm, mv);
        let bonus: i64 = 1i64 << depth;
        let color = board.color();
        let s = hist_index(color, mv);
        let hs = history[s].wrapping_add(bonus);
        history.set(s, hs);
        let ghost h0 = history@;
        let ghost stop = first_index_of(moves@, mv, 0);
        proof {
            lemma_first_index_of(moves@, mv, 0);
        }
        let mut i: usize = 0;
        while i < moves.len()
            invariant_except_break
                0 <= i <= moves@.len(),
                i <= stop,
                forall|j: int| 0 <= j < i ==> (#[trigger] moves@[j]).mv != mv,
            invariant
                0 <= stop <= moves@.len(),
                forall|j: int| 0 <= j < stop ==> (#[trigger] moves@[j]).mv != mv,
                stop < moves@.len() ==> moves@[stop].mv == mv,
                color == color_of_turn(board.turn_num as int),
                forall|j: int| 0 <= j < moves@.len() ==> (#[trigger] moves@[j]).mv.wf(),
                history@.len() > 2 * move_classes() * GRID_SIZE,
                history@.len() == old(history)@.len(),
                bonus == bonus_at(depth),
                has_quiet_before(moves@, stop) ==> {
                    &&& explored_quiet != 1
                    &&& explored_quiet != i64::MIN
                    &&& !(bonus == i64::MIN && explored_quiet == 0)
                },
                history@ == penalized(h0, color, moves@, trunc_div(bonus as int, explored_quiet - 1) as i64, i as int),
            ensures
                history@ == penalized(h0, color, moves@, trunc_div(bonus as int, explored_quiet - 1) as i64, stop),
            decreases moves@.len() - i,
        {
            let prev = moves[i];
            if prev.mv == mv {
                break;
            }
            if prev.quiet {
                assert(has_quiet_before(moves@, stop)) by {
                    assert(moves@[i as int].quiet);
                }
                let dec = bonus / (explored_quiet - 1);
                proof {
                    let a = bonus as int;
                    let b = explored_quiet - 1;
                    assert(dec == (if a >= 0 { (a / b) as i64 } else { (-((-a) / b)) as i64 }));
                    lemma_trunc_div(a, b);
                }
                assert(dec == trunc_div(bonus as int, explored_quiet - 1) as i64);
                let t = hist_index(color, prev.mv);
                let v = history[t].wrapping_sub(dec);
                history.set(t, v);
            }
            i += 1;
        }
    }
}

} // verus!
