//! The alpha-beta search of one thread: principal variation search with
//! late move reductions, internal iterative deepening, razoring, futility
//! and null move pruning, and a quiescence search of noisy moves. What lies
//! outside the board is handed in: the evaluation, the clock, the shared
//! transposition table, the root move votes and the table of reduced depths.

use vstd::prelude::*;
use crate::action::{Action, ActionKind};
use crate::board::{Board, BoardModel, lemma_undo_inverts_do, can_do, do_spec, is_noisy_spec};
use crate::engine::{Depth, INF, move_classes, terminal_score, terminal_score_spec, mate_in_spec};
use crate::eval::{Eval, Value};
use crate::move_order::{
    MoveInfo, order_moves, update_heuristics, stably_ordered, is_stable_order, move_infos, first_index_of,
    has_quiet_before, lemma_first_index_of,
};
use crate::movegen::{few_pieces, gen_ok, all_gen_ok, moves_spec};
use crate::move_order::pv_or_pass;
use crate::engine::last_move_slot;
use crate::search_rules::{
    Killers, NodeType, TtProbe, child_node_type, mate_window, no_killers, research_node_type, tt_quiescence, tt_quiescence_spec, vmax,
    tt_search, tt_search_spec, vmin, child_type_spec,
};
use crate::tile::GRID_SIZE;
use crate::tt::TEntry;

verus! {

/// What the search learns across nodes: a history score and a countermove
/// per move index.
pub struct Heuristics {
    pub history: Vec<i64>,
    pub countermove: Vec<Action>,
}

/// Both tables have a slot for every move index.
pub open spec fn heur_ok(h: Heuristics) -> bool {
    &&& h.history@.len() > 2 * move_classes() * GRID_SIZE
    &&& h.countermove@.len() > 2 * move_classes() * GRID_SIZE
}

/// The depth a quiescence search stores its results at.
pub const QS_DEPTH: Depth = 0;

/// Entries of the table of reduced depths: by node type, depth and move
/// index.
pub const LMR_LEN: usize = 786432;

/// The index of the reduced depth for a node of type `nt` at `depth`, for
/// the move at `move_index`.
pub open spec fn lmr_index(nt: NodeType, depth: int, move_index: int) -> int {
    let t = match nt {
        NodeType::Pv => 0int,
        NodeType::Cut => 1int,
        NodeType::All => 2int,
    };
    (t * 256 + depth) * 1024 + (if move_index < 1023 { move_index } else { 1023 })
}

/// Every reduced depth from a depth of at least 2 is below it.
pub open spec fn lmr_ok(lmr: Seq<u8>) -> bool {
    &&& lmr.len() == LMR_LEN
    &&& forall|i: int| 0 <= i < LMR_LEN && (i / 1024) % 256 >= 2 ==> #[trigger] lmr[i] < (i / 1024) % 256
}

/// A window bound or a value a search can return: one whose negation is
/// a value too.
pub open spec fn in_window(v: Value) -> bool {
    -i16::MAX <= v <= i16::MAX
}

/// The null-move search of a node of type `nt` at `depth` with upper bound
/// `beta` can add 50 to `beta` and negate `beta` plus one. Below the root
/// the mate distance keeps `beta` well inside that range.
pub open spec fn null_move_ok(nt: NodeType, ply: Depth, depth: Depth, beta: Value) -> bool {
    ply == 0 && nt == NodeType::Cut && depth > 2 ==> -i16::MAX + 1 <= beta <= i16::MAX - 50
}

/// What the table hands back holds values a search can return.
pub open spec fn entry_ok(e: Option<TEntry>) -> bool {
    match e {
        Some(e) => -INF <= e.value <= INF && (e.eval matches Some(v) ==> -INF <= v <= INF),
        None => true,
    }
}

/// The outside work of a search: the evaluation of a board with its
/// moves, the clock (told whether the node is a quiescence node; it also
/// counts the node), the table lookup and the two table stores, and the
/// vote for a best move at the root. The stores are handed only values a
/// search can return and evaluations in range.
pub open spec fn outside_ok<
    E: Fn(&Board, &Vec<Action>) -> Eval,
    X: Fn(bool) -> bool,
    G: Fn(u64) -> Option<TEntry>,
    P: Fn(u64, Value, Value, Action, Value, Eval, Depth),
    Q: Fn(u64, Eval),
    V: Fn(Option<Action>, Depth),
>(eval: &E, expired: &X, tt_get: &G, tt_put: &P, put_eval: &Q, vote: &V) -> bool {
    &&& forall|b: &Board, m: &Vec<Action>| #[trigger] eval.requires((b, m))
    &&& forall|b: &Board, m: &Vec<Action>, v: Eval| #[trigger] eval.ensures((b, m), v) ==> -INF <= v <= INF
    &&& forall|q: bool| #[trigger] expired.requires((q,))
    &&& forall|h: u64| #[trigger] tt_get.requires((h,))
    &&& forall|h: u64, e: Option<TEntry>| #[trigger] tt_get.ensures((h,), e) ==> entry_ok(e)
    &&& forall|h: u64, a: Value, b: Value, pv: Action, v: Value, e: Eval, d: Depth|
        in_window(v) && -INF <= e <= INF ==> #[trigger] tt_put.requires((h, a, b, pv, v, e, d))
    &&& forall|h: u64, e: Eval| -INF <= e <= INF ==> #[trigger] put_eval.requires((h, e))
    &&& forall|m: Option<Action>, d: Depth| #[trigger] vote.requires((m, d))
}

/// The noisy moves among the first `n` of `s` on `b`, in order.
pub open spec fn noisy_of(b: Board, s: Seq<Action>, n: int) -> Seq<Action>
    decreases n,
{
    if n <= 0 {
        Seq::empty()
    } else {
        let p = noisy_of(b, s, n - 1);
        if is_noisy_spec(b@, s[n - 1]) {
            p.push(s[n - 1])
        } else {
            p
        }
    }
}

/// `p` takes each move of `s` once to its place in `order`.
pub open spec fn perm_of(p: Seq<int>, order: Seq<Action>, s: Seq<Action>) -> bool {
    &&& p.len() == order.len()
    &&& order.len() == s.len()
    &&& forall|j: int| 0 <= j < p.len() ==> 0 <= #[trigger] p[j] < s.len() && order[j] == s[p[j]]
    &&& forall|j: int, l: int| 0 <= j < l < p.len() ==> #[trigger] p[j] != #[trigger] p[l]
}

/// `order` lists the moves of `s`, each once, in some order.
pub open spec fn reordered(order: Seq<Action>, s: Seq<Action>) -> bool {
    exists|p: Seq<int>| #[trigger] perm_of(p, order, s)
}

/// `ev` is the evaluation of the node `b` whose table entry is `e`: the
/// evaluation the entry holds, else one the evaluation hands back for `b`
/// and its moves.
pub open spec fn eval_of<E: Fn(&Board, &Vec<Action>) -> Eval>(b: Board, e: Option<TEntry>, ev: Eval, eval: &E) -> bool {
    if e matches Some(en) && en.eval is Some {
        ev == e->0.eval->0
    } else {
        exists|m: Vec<Action>| #[trigger] eval.ensures((&b, &m), ev) && m@ == moves_spec(b)
    }
}

/// The store a search node hands the table after trying its moves: the
/// window it tried them with, its evaluation, the first move with the
/// greatest value together with that value (none when no move was tried),
/// and the depth it stores.
pub struct NodeStore {
    pub lo: Value,
    pub hi: Value,
    pub eval: Eval,
    pub best: Option<(Value, Action)>,
    pub depth: Depth,
}

/// The best move after the move `mv` of value `v`: that move when it beats
/// the best so far or there is none, else the best so far.
pub open spec fn next_best(best: Option<(Value, Action)>, v: Value, mv: Action) -> Option<(Value, Action)> {
    match best {
        Some((bv, _)) => if v > bv {
            Some((v, mv))
        } else {
            best
        },
        None => Some((v, mv)),
    }
}

/// The move of a best move, if any.
pub open spec fn best_move(best: Option<(Value, Action)>) -> Option<Action> {
    match best {
        Some((_, mv)) => Some(mv),
        None => None,
    }
}

/// The best move and value of the search loop's record.
pub open spec fn best_of(best: Option<(Value, MoveInfo)>) -> Option<(Value, Action)> {
    match best {
        Some((v, m)) => Some((v, m.mv)),
        None => None,
    }
}

/// What a node at `ply` searched to `depth` with window `alpha..beta`,
/// result `r` and store `out` has handed out: the table has been given
/// `(hash, lo, hi, best move, its value, evaluation, depth)` whenever the
/// store has a best move, and at the root of a full-depth search whose
/// value falls strictly inside the window, the vote has been given the
/// best move (none when no move was tried) and the depth.
pub open spec fn stores_made<
    P: Fn(u64, Value, Value, Action, Value, Eval, Depth),
    V: Fn(Option<Action>, Depth),
>(out: Option<NodeStore>, hash: u64, ply: Depth, depth: Depth, alpha: Value, beta: Value, r: Option<Value>, tt_put: &P, vote: &V) -> bool {
    match out {
        None => true,
        Some(st) => {
            &&& (st.best matches Some((v, mv)) ==> tt_put.ensures((hash, st.lo, st.hi, mv, v, st.eval, st.depth), ()))
            &&& (depth > 0 && st.depth == depth && ply == 0 && (r matches Some(x) && alpha < x < beta)) ==> vote.ensures(
                (best_move(st.best), depth),
                (),
            )
        },
    }
}

/// `r` is a result the quiescence search of `b` at `ply` (down to
/// `max_ply`, window `alpha0..beta`) can give, the clock, the table and the
/// evaluation answering as their contracts allow: `None` when the clock
/// ran out, the board has too many pieces, or a move cannot be played; else
/// the score of a finished game, a value the table settles, the evaluation
/// when it fails high or at the last ply, and otherwise the best of the
/// evaluation and the negated results of the noisy moves in some order,
/// stopping at the first that fails high. `out` is the store the node
/// hands the table (see `NodeStore`): there is one exactly when the node
/// went through its noisy moves.
pub open spec fn qs_result<
    E: Fn(&Board, &Vec<Action>) -> Eval,
    X: Fn(bool) -> bool,
    G: Fn(u64) -> Option<TEntry>,
>(b: Board, ply: Depth, max_ply: Depth, alpha0: Value, beta: Value, r: Option<Value>, out: Option<NodeStore>, eval: &E, expired: &X, tt_get: &G) -> bool
    decreases max_ply - ply, 1int, 0int,
{
    ||| expired.ensures((true,), true) && r is None && out is None
    ||| expired.ensures((true,), false) && match terminal_score_spec(b, ply) {
        Some(t) => r == Some(t) && out is None,
        None => if !few_pieces(b) {
            r is None && out is None
        } else {
            exists|e: Option<TEntry>| #[trigger] tt_get.ensures((b.zobrist_hash,), e) && match tt_quiescence_spec(e, ply, alpha0, beta) {
                TtProbe::Cutoff(c) => r == Some(c) && out is None,
                TtProbe::Window(a, bb) => exists|ev: Eval| #[trigger] eval_of(b, e, ev, eval) && {
                    let al = vmax(a, ev);
                    if al >= bb {
                        r == Some(al) && out is None
                    } else if ply >= max_ply {
                        r == Some(ev) && out is None
                    } else {
                        let noisy = noisy_of(b, moves_spec(b), moves_spec(b).len() as int);
                        exists|order: Seq<Action>| #[trigger] reordered(order, noisy) && match out {
                            Some(st) => {
                                &&& r is Some
                                &&& st.lo == a && st.hi == bb && st.eval == ev && st.depth == QS_DEPTH
                                &&& qs_loop(b, order, ply, max_ply, al, bb, 0, None, r, st.best, eval, expired, tt_get)
                            },
                            None => r is None && qs_loop(b, order, ply, max_ply, al, bb, 0, None, r, None, eval, expired, tt_get),
                        }
                    }
                },
            }
        },
    }
}

/// `r` is a result of the loop of the quiescence search of `b` over the
/// moves of `order` from the `k`-th on, with the window `alpha..beta` and
/// the best move so far `best`; `rb` is the best move when the loop ends
/// with a value (see `next_best`).
pub open spec fn qs_loop<
    E: Fn(&Board, &Vec<Action>) -> Eval,
    X: Fn(bool) -> bool,
    G: Fn(u64) -> Option<TEntry>,
>(
    b: Board,
    order: Seq<Action>,
    ply: Depth,
    max_ply: Depth,
    alpha: Value,
    beta: Value,
    k: int,
    best: Option<(Value, Action)>,
    r: Option<Value>,
    rb: Option<(Value, Action)>,
    eval: &E,
    expired: &X,
    tt_get: &G,
) -> bool
    decreases max_ply - ply, 0int, order.len() - k,
{
    if k >= order.len() || k < 0 || ply >= max_ply {
        r == Some(alpha) && rb == best
    } else if !can_do(b@, order[k]) {
        r is None
    } else {
        exists|bc: (Board, Option<Value>, Option<NodeStore>)|
            #[trigger] bc.0.wf() && bc.0@ == do_spec(b@, order[k]) && qs_result(bc.0, (ply + 1) as Depth, max_ply, (-beta) as Value, (-alpha) as Value, bc.1, bc.2, eval, expired, tt_get) && match bc.1 {
                None => r is None,
                Some(cv) => {
                    let v = (-cv) as Value;
                    let a2 = vmax(alpha, v);
                    let best2 = next_best(best, v, order[k]);
                    if a2 >= beta {
                        r == Some(a2) && rb == best2
                    } else {
                        qs_loop(b, order, ply, max_ply, a2, beta, k + 1, best2, r, rb, eval, expired, tt_get)
                    }
                },
            }
    }
}

/// The node type of the full-window search again of a move that beat
/// `alpha` in its reduced null-window search.
pub open spec fn research_spec(nt: NodeType) -> NodeType {
    match nt {
        NodeType::Pv => NodeType::Pv,
        NodeType::All => NodeType::Cut,
        NodeType::Cut => NodeType::All,
    }
}

/// A value of the child, seen from the parent.
pub open spec fn negated(c: Option<Value>) -> Option<Value> {
    match c {
        Some(v) => Some((-v) as Value),
        None => None,
    }
}

/// The reduction of the null move and of internal iterative deepening at
/// `depth`.
pub open spec fn reduction(depth: Depth) -> int {
    2 + (depth - 2) / 3
}

/// `r` is a result the alpha-beta search of `b` (node type `nt`, `ply`
/// from the root, `depth` to go, window `alpha0..beta0`, reduced depths
/// `lmr`) can give, the clock, the table and the evaluation answering as
/// their contracts allow, and `out` the store it hands the table (see
/// `NodeStore`; there is one exactly when the node went through its moves,
/// or through those of its quiescence search): `None` when the clock ran
/// out, a board has too many pieces, a move cannot be played or there are
/// more moves than the count of quiet moves holds; the quiescence search at
/// depth 0; else the bound of the mate distance window when it is empty,
/// the score of a finished game, a value the table settles, and otherwise
/// the value of the node (see `ab_node`) from the table's entry, read again
/// after a shallower search when there was none and `depth` is at least 4
/// (the board then one with the same view, and `None` if it has too many
/// pieces).
pub open spec fn ab_result<
    E: Fn(&Board, &Vec<Action>) -> Eval,
    X: Fn(bool) -> bool,
    G: Fn(u64) -> Option<TEntry>,
>(
    b: Board,
    nt: NodeType,
    ply: Depth,
    depth: Depth,
    alpha0: Value,
    beta0: Value,
    r: Option<Value>,
    out: Option<NodeStore>,
    lmr: Seq<u8>,
    eval: &E,
    expired: &X,
    tt_get: &G,
) -> bool
    decreases depth, 4int, 0int,
{
    ||| expired.ensures((false,), true) && r is None && out is None
    ||| expired.ensures((false,), false) && if depth == 0 {
        qs_result(b, ply, (ply * 2) as Depth, alpha0, beta0, r, out, eval, expired, tt_get)
    } else {
        let a1 = if ply != 0 { vmax(alpha0, (-mate_in_spec(ply)) as Value) } else { alpha0 };
        let b1 = if ply != 0 { vmin(beta0, mate_in_spec((ply + 1) as Depth) as Value) } else { beta0 };
        if ply != 0 && a1 >= b1 {
            r == Some(a1) && out is None
        } else {
            match terminal_score_spec(b, ply) {
                Some(t) => r == Some(t) && out is None,
                None => if !few_pieces(b) {
                    r is None && out is None
                } else {
                    exists|e: Option<TEntry>| #[trigger] tt_get.ensures((b.zobrist_hash,), e) && match tt_search_spec(e, depth, ply, a1, b1) {
                        TtProbe::Cutoff(c) => r == Some(c) && out is None,
                        TtProbe::Window(a, bb) => if depth >= 4 && e is None {
                            exists|bi: (Board, Option<TEntry>)|
                                #[trigger] bi.0.wf() && bi.0@ == b@ && tt_get.ensures((bi.0.zobrist_hash,), bi.1) && if few_pieces(bi.0) {
                                    ab_node(bi.0, nt, ply, depth, a, bb, bi.1, r, out, lmr, eval, expired, tt_get)
                                } else {
                                    r is None && out is None
                                }
                        } else {
                            ab_node(b, nt, ply, depth, a, bb, e, r, out, lmr, eval, expired, tt_get)
                        },
                    }
                },
            }
        }
    }
}

/// `r` is a value of the node `b` with table entry `e` and window `a..bb`,
/// and `out` its store: the quiescence search when the evaluation is far
/// below `a` near the leaves (razoring), the evaluation when it is well
/// above `bb` near the leaves (futility), the negated value of a shallower
/// null-window search after passing when that fails high at an expected
/// cut node, and otherwise the value of the moves (see `ab_moves`).
pub open spec fn ab_node<
    E: Fn(&Board, &Vec<Action>) -> Eval,
    X: Fn(bool) -> bool,
    G: Fn(u64) -> Option<TEntry>,
>(
    b: Board,
    nt: NodeType,
    ply: Depth,
    depth: Depth,
    a: Value,
    bb: Value,
    e: Option<TEntry>,
    r: Option<Value>,
    out: Option<NodeStore>,
    lmr: Seq<u8>,
    eval: &E,
    expired: &X,
    tt_get: &G,
) -> bool
    decreases depth, 3int, 0int,
{
    exists|ev: Eval| #[trigger] eval_of(b, e, ev, eval) && if nt != NodeType::Pv && depth <= 6 && ev < a - 500 - 200 * depth * depth {
        qs_result(b, ply, (ply * 2) as Depth, a, bb, r, out, eval, expired, tt_get)
    } else if depth <= 4 && ev > bb + 150 + 100 * depth && -6000 < ev < 6000 {
        r == Some(ev) && out is None
    } else if nt == NodeType::Cut && depth > 2 && ev >= bb + 50 {
        let pass = Action::spec_from_kind(ActionKind::Pass);
        if !can_do(b@, pass) {
            r is None && out is None
        } else {
            exists|bc: (Board, Option<Value>, Option<NodeStore>)|
                #[trigger] bc.0.wf() && bc.0@ == do_spec(b@, pass) && ab_result(bc.0, NodeType::All, (ply + 1) as Depth, (depth - reduction(depth)) as Depth, (-bb) as Value, (-bb + 1) as Value, bc.1, bc.2, lmr, eval, expired, tt_get) && match bc.1 {
                    None => r is None && out is None,
                    Some(v) => if -v >= bb {
                        r == Some((-v) as Value) && out is None
                    } else {
                        ab_moves(b, nt, ply, depth, a, bb, e, ev, r, out, lmr, eval, expired, tt_get)
                    },
                }
        }
    } else {
        ab_moves(b, nt, ply, depth, a, bb, e, ev, r, out, lmr, eval, expired, tt_get)
    }
}

/// The principal variation move of a table entry, if any.
pub open spec fn pv_of(e: Option<TEntry>) -> Option<Action> {
    match e {
        Some(x) => Some(x.pv),
        None => None,
    }
}

/// `r` is the value of the moves of `b` and `out` the store (window
/// `a..bb`, evaluation `ev`, the best move, `depth`), the moves being
/// generated on a board with its view and tried in the order of
/// `order_moves`: the principal variation move of the entry `e` first, then
/// by `goes_before` on their infos, for some history, killer and
/// countermove tables (see `ab_loop`). `None` when that board has too many
/// pieces or more moves than the count of quiet moves holds.
pub open spec fn ab_moves<
    E: Fn(&Board, &Vec<Action>) -> Eval,
    X: Fn(bool) -> bool,
    G: Fn(u64) -> Option<TEntry>,
>(
    b: Board,
    nt: NodeType,
    ply: Depth,
    depth: Depth,
    a: Value,
    bb: Value,
    e: Option<TEntry>,
    ev: Eval,
    r: Option<Value>,
    out: Option<NodeStore>,
    lmr: Seq<u8>,
    eval: &E,
    expired: &X,
    tt_get: &G,
) -> bool
    decreases depth, 2int, 0int,
{
    ||| exists|bq: Board| #[trigger] bq.wf() && bq@ == b@ && !few_pieces(bq) && r is None && out is None
    ||| exists|om: (Board, Seq<MoveInfo>, Seq<i64>, Seq<(Action, u8)>, Action)|
        #[trigger] stably_ordered(om.1, move_infos(om.0, moves_spec(om.0), om.2, om.3), pv_or_pass(pv_of(e)), om.4) && om.0.wf()
            && om.0@ == b@ && few_pieces(om.0) && if moves_spec(om.0).len() >= 0x7fff_ffff_ffff_ffff {
            r is None && out is None
        } else {
            match out {
                Some(st) => {
                    &&& r is Some
                    &&& st.lo == a && st.hi == bb && st.eval == ev && st.depth == depth
                    &&& ab_loop(b@, moves_of(om.1), nt, ply, depth, a, bb, 0, None, r, st.best, lmr, eval, expired, tt_get)
                },
                None => r is None && ab_loop(b@, moves_of(om.1), nt, ply, depth, a, bb, 0, None, r, None, lmr, eval, expired, tt_get),
            }
        }
}

/// `r` is a result of the loop over the moves of `order` from the `k`-th
/// on, from a board with the view `m`, with the window `alpha..beta` and
/// the best move so far `best`: each move's value (see `pvs_ok`) raises
/// `alpha`, and the first that reaches `beta` ends the loop; `rb` is the
/// best move when the loop ends with a value (see `next_best`).
pub open spec fn ab_loop<
    E: Fn(&Board, &Vec<Action>) -> Eval,
    X: Fn(bool) -> bool,
    G: Fn(u64) -> Option<TEntry>,
>(
    m: BoardModel,
    order: Seq<Action>,
    nt: NodeType,
    ply: Depth,
    depth: Depth,
    alpha: Value,
    beta: Value,
    k: int,
    best: Option<(Value, Action)>,
    r: Option<Value>,
    rb: Option<(Value, Action)>,
    lmr: Seq<u8>,
    eval: &E,
    expired: &X,
    tt_get: &G,
) -> bool
    decreases depth, 1int, order.len() - k,
{
    if k >= order.len() || k < 0 {
        r == Some(alpha) && rb == best
    } else if !can_do(m, order[k]) {
        r is None
    } else {
        exists|bc: (Board, (Option<Value>, Option<NodeStore>), (Board, Option<Value>, Option<NodeStore>), Option<Value>)|
            #[trigger] bc.0.wf() && bc.0@ == do_spec(m, order[k]) && pvs_ok(bc.0, nt, ply, depth, alpha, beta, k, bc.1, bc.2, bc.3, lmr, eval, expired, tt_get) && match bc.3 {
                None => r is None,
                Some(v) => {
                    let a2 = vmax(alpha, v);
                    let best2 = next_best(best, v, order[k]);
                    if a2 >= beta {
                        r == Some(a2) && rb == best2
                    } else {
                        ab_loop(m, order, nt, ply, depth, a2, beta, k + 1, best2, r, rb, lmr, eval, expired, tt_get)
                    }
                },
            }
    }
}

/// `v` is the value, from the parent's side, of the `k`-th move of a node
/// of type `nt` at `depth` with window `alpha..beta`, `b2` the board it
/// leads to: the full-window search one ply down for the first move or
/// near the leaves; otherwise a null-window search at the reduced depth of
/// `lmr` (result and store `c1`), searched again with the full window and
/// depth (result and store `c2.1`, `c2.2`) when it beats `alpha` and either
/// the window or the depth was cut, on `c2.0`, the board the first search
/// left, with the view of `b2`.
pub open spec fn pvs_ok<
    E: Fn(&Board, &Vec<Action>) -> Eval,
    X: Fn(bool) -> bool,
    G: Fn(u64) -> Option<TEntry>,
>(
    b2: Board,
    nt: NodeType,
    ply: Depth,
    depth: Depth,
    alpha: Value,
    beta: Value,
    k: int,
    c1: (Option<Value>, Option<NodeStore>),
    c2: (Board, Option<Value>, Option<NodeStore>),
    v: Option<Value>,
    lmr: Seq<u8>,
    eval: &E,
    expired: &X,
    tt_get: &G,
) -> bool
    decreases depth, 0int, 0int,
{
    let ct = child_type_spec(nt, k);
    let nd = (depth - 1) as Depth;
    &&& depth >= 1
    &&& if k == 0 || depth < 2 {
        ab_result(b2, ct, (ply + 1) as Depth, nd, (-beta) as Value, (-alpha) as Value, c1.0, c1.1, lmr, eval, expired, tt_get) && v == negated(c1.0)
    } else {
        let d = lmr[lmr_index(nt, depth as int, k)];
        &&& d < depth
        &&& ab_result(b2, ct, (ply + 1) as Depth, d, (-(alpha + 1)) as Value, (-alpha) as Value, c1.0, c1.1, lmr, eval, expired, tt_get)
        &&& match c1.0 {
            None => v is None,
            Some(x) => if -x > alpha && (beta > 1 + alpha || d < nd) {
                c2.0.wf() && c2.0@ == b2@ && ab_result(c2.0, research_spec(nt), (ply + 1) as Depth, nd, (-beta) as Value, (-alpha) as Value, c2.1, c2.2, lmr, eval, expired, tt_get)
                    && v == negated(c2.1)
            } else {
                v == Some((-x) as Value)
            },
        }
    }
}

/// What the search of `b` has found before it evaluates the node `bn`
/// with table entry `e` and window `a..bb`: the clock, the mate distance
/// window, the game, the table entry `e1` and its window, and the shallower
/// search that may have come between.
spec fn ab_ready<
    X: Fn(bool) -> bool,
    G: Fn(u64) -> Option<TEntry>,
>(b: Board, bn: Board, ply: Depth, depth: Depth, alpha0: Value, beta0: Value, a: Value, bb: Value, e1: Option<TEntry>, e: Option<TEntry>, expired: &X, tt_get: &G) -> bool {
    let a1 = if ply != 0 { vmax(alpha0, (-mate_in_spec(ply)) as Value) } else { alpha0 };
    let b1 = if ply != 0 { vmin(beta0, mate_in_spec((ply + 1) as Depth) as Value) } else { beta0 };
    &&& expired.ensures((false,), false)
    &&& depth != 0
    &&& !(ply != 0 && a1 >= b1)
    &&& terminal_score_spec(b, ply) is None
    &&& few_pieces(b)
    &&& tt_get.ensures((b.zobrist_hash,), e1)
    &&& tt_search_spec(e1, depth, ply, a1, b1) == TtProbe::Window(a, bb)
    &&& if depth >= 4 && e1 is None {
        bn.wf() && bn@ == b@ && tt_get.ensures((bn.zobrist_hash,), e)
    } else {
        bn == b && e == e1
    }
}

/// What the search of the node `bn` has found before it tries its moves:
/// the evaluation `ev`, no razoring, no futility cut, and, where it tried
/// the null move, the board `nmw.0` it led to and its value `nmw.1` (and
/// store `nmw.2`), which did not fail high.
spec fn moves_pre<
    E: Fn(&Board, &Vec<Action>) -> Eval,
    X: Fn(bool) -> bool,
    G: Fn(u64) -> Option<TEntry>,
>(bn: Board, nt: NodeType, ply: Depth, depth: Depth, a: Value, bb: Value, e: Option<TEntry>, ev: Eval, nmw: (Board, Option<Value>, Option<NodeStore>), lmr: Seq<u8>, eval: &E, expired: &X, tt_get: &G) -> bool {
    let pass = Action::spec_from_kind(ActionKind::Pass);
    &&& eval_of(bn, e, ev, eval)
    &&& !(nt != NodeType::Pv && depth <= 6 && ev < a - 500 - 200 * depth * depth)
    &&& !(depth <= 4 && ev > bb + 150 + 100 * depth && -6000 < ev < 6000)
    &&& nt == NodeType::Cut && depth > 2 && ev >= bb + 50 ==> {
        &&& can_do(bn@, pass)
        &&& nmw.0.wf()
        &&& nmw.0@ == do_spec(bn@, pass)
        &&& ab_result(nmw.0, NodeType::All, (ply + 1) as Depth, (depth - reduction(depth)) as Depth, (-bb) as Value, (-bb + 1) as Value, nmw.1, nmw.2, lmr, eval, expired, tt_get)
        &&& nmw.1 matches Some(v) && -v < bb
    }
}

/// A cutoff by the table entry is a result of the search, with no store.
proof fn lemma_ab_cutoff<
    E: Fn(&Board, &Vec<Action>) -> Eval,
    X: Fn(bool) -> bool,
    G: Fn(u64) -> Option<TEntry>,
>(b: Board, nt: NodeType, ply: Depth, depth: Depth, alpha0: Value, beta0: Value, e1: Option<TEntry>, v: Value, lmr: Seq<u8>, eval: &E, expired: &X, tt_get: &G)
    requires
        ({
            let a1 = if ply != 0 { vmax(alpha0, (-mate_in_spec(ply)) as Value) } else { alpha0 };
            let b1 = if ply != 0 { vmin(beta0, mate_in_spec((ply + 1) as Depth) as Value) } else { beta0 };
            &&& expired.ensures((false,), false)
            &&& depth != 0
            &&& !(ply != 0 && a1 >= b1)
            &&& terminal_score_spec(b, ply) is None
            &&& few_pieces(b)
            &&& tt_get.ensures((b.zobrist_hash,), e1)
            &&& tt_search_spec(e1, depth, ply, a1, b1) == TtProbe::Cutoff(v)
        }),
    ensures
        ab_result(b, nt, ply, depth, alpha0, beta0, Some(v), None, lmr, eval, expired, tt_get),
{
}

/// The value and store of the node after the table lookup are a result of
/// the search.
proof fn lemma_ab_from_node<
    E: Fn(&Board, &Vec<Action>) -> Eval,
    X: Fn(bool) -> bool,
    G: Fn(u64) -> Option<TEntry>,
>(
    b: Board,
    bn: Board,
    nt: NodeType,
    ply: Depth,
    depth: Depth,
    alpha0: Value,
    beta0: Value,
    a: Value,
    bb: Value,
    e1: Option<TEntry>,
    e: Option<TEntry>,
    r: Option<Value>,
    out: Option<NodeStore>,
    lmr: Seq<u8>,
    eval: &E,
    expired: &X,
    tt_get: &G,
)
    requires
        ab_ready(b, bn, ply, depth, alpha0, beta0, a, bb, e1, e, expired, tt_get),
        if few_pieces(bn) {
            ab_node(bn, nt, ply, depth, a, bb, e, r, out, lmr, eval, expired, tt_get)
        } else {
            r is None && out is None
        },
    ensures
        ab_result(b, nt, ply, depth, alpha0, beta0, r, out, lmr, eval, expired, tt_get),
{
    let bi: (Board, Option<TEntry>) = (bn, e);
    assert(bi.0.wf() || !bi.0.wf());
    if depth >= 4 && e1 is None {
        assert(bi.0.wf());
    }
}

/// The value and store of the moves of the node are a result of the search.
proof fn lemma_ab_from_moves<
    E: Fn(&Board, &Vec<Action>) -> Eval,
    X: Fn(bool) -> bool,
    G: Fn(u64) -> Option<TEntry>,
>(
    b: Board,
    bn: Board,
    nt: NodeType,
    ply: Depth,
    depth: Depth,
    alpha0: Value,
    beta0: Value,
    a: Value,
    bb: Value,
    e1: Option<TEntry>,
    e: Option<TEntry>,
    ev: Eval,
    nmw: (Board, Option<Value>, Option<NodeStore>),
    r: Option<Value>,
    out: Option<NodeStore>,
    lmr: Seq<u8>,
    eval: &E,
    expired: &X,
    tt_get: &G,
)
    requires
        ab_ready(b, bn, ply, depth, alpha0, beta0, a, bb, e1, e, expired, tt_get),
        few_pieces(bn),
        moves_pre(bn, nt, ply, depth, a, bb, e, ev, nmw, lmr, eval, expired, tt_get),
        ab_moves(bn, nt, ply, depth, a, bb, e, ev, r, out, lmr, eval, expired, tt_get),
    ensures
        ab_result(b, nt, ply, depth, alpha0, beta0, r, out, lmr, eval, expired, tt_get),
{
    if nt == NodeType::Cut && depth > 2 && ev >= bb + 50 {
        assert(nmw.0.wf());
    }
    assert(ab_node(bn, nt, ply, depth, a, bb, e, r, out, lmr, eval, expired, tt_get));
    lemma_ab_from_node(b, bn, nt, ply, depth, alpha0, beta0, a, bb, e1, e, r, out, lmr, eval, expired, tt_get);
}

/// The loop over the moves of `bm` (a board with the view of `bn` and not
/// too many pieces) in the order `infos` that `order_moves` gave them
/// gives the value and store of the moves of `bn`.
proof fn lemma_ab_moves<
    E: Fn(&Board, &Vec<Action>) -> Eval,
    X: Fn(bool) -> bool,
    G: Fn(u64) -> Option<TEntry>,
>(
    bn: Board,
    bm: Board,
    infos: Seq<MoveInfo>,
    h: Seq<i64>,
    kl: Seq<(Action, u8)>,
    cm: Action,
    e: Option<TEntry>,
    ev: Eval,
    nt: NodeType,
    ply: Depth,
    depth: Depth,
    a: Value,
    bb: Value,
    r: Option<Value>,
    out: Option<NodeStore>,
    lmr: Seq<u8>,
    eval: &E,
    expired: &X,
    tt_get: &G,
)
    requires
        bm.wf(),
        bm@ == bn@,
        few_pieces(bm),
        stably_ordered(infos, move_infos(bm, moves_spec(bm), h, kl), pv_or_pass(pv_of(e)), cm),
        if moves_spec(bm).len() >= 0x7fff_ffff_ffff_ffff {
            r is None && out is None
        } else {
            match out {
                Some(st) => {
                    &&& r is Some
                    &&& st.lo == a && st.hi == bb && st.eval == ev && st.depth == depth
                    &&& ab_loop(bn@, moves_of(infos), nt, ply, depth, a, bb, 0, None, r, st.best, lmr, eval, expired, tt_get)
                },
                None => r is None && ab_loop(bn@, moves_of(infos), nt, ply, depth, a, bb, 0, None, r, None, lmr, eval, expired, tt_get),
            }
        },
    ensures
        ab_moves(bn, nt, ply, depth, a, bb, e, ev, r, out, lmr, eval, expired, tt_get),
{
    let om: (Board, Seq<MoveInfo>, Seq<i64>, Seq<(Action, u8)>, Action) = (bm, infos, h, kl, cm);
    assert(stably_ordered(om.1, move_infos(om.0, moves_spec(om.0), om.2, om.3), pv_or_pass(pv_of(e)), om.4));
}

/// A board with the view of `bn` and too many pieces makes the value of
/// the moves of `bn` `None`, with no store.
proof fn lemma_ab_moves_crowded<
    E: Fn(&Board, &Vec<Action>) -> Eval,
    X: Fn(bool) -> bool,
    G: Fn(u64) -> Option<TEntry>,
>(bn: Board, bq: Board, nt: NodeType, ply: Depth, depth: Depth, a: Value, bb: Value, e: Option<TEntry>, ev: Eval, lmr: Seq<u8>, eval: &E, expired: &X, tt_get: &G)
    requires
        bq.wf(),
        bq@ == bn@,
        !few_pieces(bq),
    ensures
        ab_moves(bn, nt, ply, depth, a, bb, e, ev, None, None, lmr, eval, expired, tt_get),
{
}

/// A move that cannot be played ends the loop with `None`.
proof fn lemma_ab_unplayable<
    E: Fn(&Board, &Vec<Action>) -> Eval,
    X: Fn(bool) -> bool,
    G: Fn(u64) -> Option<TEntry>,
>(
    b0: Board,
    order: Seq<Action>,
    nt: NodeType,
    ply: Depth,
    depth: Depth,
    alpha: Value,
    beta: Value,
    k: int,
    best: Option<(Value, Action)>,
    rb: Option<(Value, Action)>,
    lmr: Seq<u8>,
    eval: &E,
    expired: &X,
    tt_get: &G,
)
    requires
        0 <= k < order.len(),
        !can_do(b0@, order[k]),
    ensures
        ab_loop(b0@, order, nt, ply, depth, alpha, beta, k, best, None, rb, lmr, eval, expired, tt_get),
{
}

/// A move whose value is `v` ends the loop with `None` when `v` is `None`;
/// otherwise it raises `alpha` to `a2` and the best move to `best2`, which
/// ends the loop when `a2` reaches `beta` and goes on to the next move when
/// not.
proof fn lemma_ab_step<
    E: Fn(&Board, &Vec<Action>) -> Eval,
    X: Fn(bool) -> bool,
    G: Fn(u64) -> Option<TEntry>,
>(
    b0: Board,
    order: Seq<Action>,
    nt: NodeType,
    ply: Depth,
    depth: Depth,
    alpha: Value,
    beta: Value,
    k: int,
    best: Option<(Value, Action)>,
    rb: Option<(Value, Action)>,
    b2: Board,
    c1: (Option<Value>, Option<NodeStore>),
    c2: (Board, Option<Value>, Option<NodeStore>),
    v: Option<Value>,
    lmr: Seq<u8>,
    eval: &E,
    expired: &X,
    tt_get: &G,
)
    requires
        0 <= k < order.len(),
        can_do(b0@, order[k]),
        b2.wf(),
        b2@ == do_spec(b0@, order[k]),
        pvs_ok(b2, nt, ply, depth, alpha, beta, k, c1, c2, v, lmr, eval, expired, tt_get),
    ensures
        v is None ==> ab_loop(b0@, order, nt, ply, depth, alpha, beta, k, best, None, rb, lmr, eval, expired, tt_get),
        v matches Some(x) ==> {
            let a2 = vmax(alpha, x);
            let best2 = next_best(best, x, order[k]);
            &&& a2 >= beta ==> ab_loop(b0@, order, nt, ply, depth, alpha, beta, k, best, Some(a2), best2, lmr, eval, expired, tt_get)
            &&& forall|rr: Option<Value>, rrb: Option<(Value, Action)>|
                a2 < beta && #[trigger] ab_loop(b0@, order, nt, ply, depth, a2, beta, k + 1, best2, rr, rrb, lmr, eval, expired, tt_get)
                    ==> ab_loop(b0@, order, nt, ply, depth, alpha, beta, k, best, rr, rrb, lmr, eval, expired, tt_get)
        },
{
    let bc: (Board, (Option<Value>, Option<NodeStore>), (Board, Option<Value>, Option<NodeStore>), Option<Value>) = (b2, c1, c2, v);
    assert(bc.0.wf());
}

/// A quiescence search's store is one at the quiescence depth.
proof fn lemma_qs_store_depth<
    E: Fn(&Board, &Vec<Action>) -> Eval,
    X: Fn(bool) -> bool,
    G: Fn(u64) -> Option<TEntry>,
>(b: Board, ply: Depth, max_ply: Depth, alpha0: Value, beta: Value, r: Option<Value>, out: Option<NodeStore>, eval: &E, expired: &X, tt_get: &G)
    requires
        qs_result(b, ply, max_ply, alpha0, beta, r, out, eval, expired, tt_get),
    ensures
        out matches Some(st) ==> st.depth == QS_DEPTH,
{
}

/// The number of quiet moves among the first `n` of `moves`.
pub open spec fn quiet_count(moves: Seq<MoveInfo>, n: int) -> int
    decreases n,
{
    if n <= 0 {
        0
    } else {
        quiet_count(moves, n - 1) + if moves[n - 1].quiet {
            1int
        } else {
            0int
        }
    }
}

proof fn lemma_quiet_count_mono(moves: Seq<MoveInfo>, n: int, m: int)
    requires
        0 <= m <= n,
    ensures
        0 <= quiet_count(moves, m) <= quiet_count(moves, n) <= n,
    decreases n,
{
    if n > 0 {
        if m < n {
            lemma_quiet_count_mono(moves, n - 1, m);
        } else {
            lemma_quiet_count_mono(moves, n - 1, n - 1);
        }
    }
}

proof fn lemma_quiet_count(moves: Seq<MoveInfo>, n: int, m: int)
    requires
        0 <= m <= n,
    ensures
        0 <= quiet_count(moves, m) <= quiet_count(moves, n) <= n,
        has_quiet_before(moves, m) ==> quiet_count(moves, m) >= 1,
{
    lemma_quiet_count_mono(moves, n, m);
    if has_quiet_before(moves, m) {
        let j = choose|j: int| 0 <= j < m && (#[trigger] moves[j]).quiet;
        lemma_quiet_count_mono(moves, j, 0);
        lemma_quiet_count_mono(moves, m, j + 1);
    }
}

proof fn lemma_quiet_count_nonneg(moves: Seq<MoveInfo>, n: int)
    requires
        0 <= n,
    ensures
        quiet_count(moves, n) >= 0,
{
    lemma_quiet_count_mono(moves, n, 0);
}

/// The ordered moves are the generated ones, well-formed.
proof fn lemma_ordered_wf(r: Seq<MoveInfo>, s: Seq<MoveInfo>, pv: Action, cm: Action)
    requires
        stably_ordered(r, s, pv, cm),
        forall|i: int| 0 <= i < s.len() ==> (#[trigger] s[i]).mv.wf(),
    ensures
        r.len() == s.len(),
        forall|i: int| 0 <= i < r.len() ==> (#[trigger] r[i]).mv.wf(),
{
    let p = choose|p: Seq<int>| is_stable_order(p, r, s, pv, cm);
    assert forall|i: int| 0 <= i < r.len() implies (#[trigger] r[i]).mv.wf() by {
        assert(0 <= p[i] < s.len() && r[i] == s[p[i]]);
    }
}

/// The moves of `r`, in its order.
pub open spec fn moves_of(r: Seq<MoveInfo>) -> Seq<Action> {
    r.map_values(|m: MoveInfo| m.mv)
}

/// Moves ordered from their infos are the moves, each once.
proof fn lemma_reordered(r: Seq<MoveInfo>, s: Seq<MoveInfo>, ms: Seq<Action>, pv: Action, cm: Action)
    requires
        stably_ordered(r, s, pv, cm),
        s.len() == ms.len(),
        forall|i: int| 0 <= i < s.len() ==> (#[trigger] s[i]).mv == ms[i],
    ensures
        reordered(moves_of(r), ms),
{
    let p = choose|p: Seq<int>| is_stable_order(p, r, s, pv, cm);
    let order = moves_of(r);
    assert forall|j: int| 0 <= j < p.len() implies 0 <= #[trigger] p[j] < ms.len() && order[j] == ms[p[j]] by {
        assert(r[j] == s[p[j]]);
    }
    assert(perm_of(p, order, ms));
}

/// The evaluation of the node: the one the table holds, else the
/// evaluation of the board with its moves, which are kept and stored in the
/// table.
fn eval_with_caches<E: Fn(&Board, &Vec<Action>) -> Eval, Q: Fn(u64, Eval)>(
    board: &Board,
    entry: Option<TEntry>,
    moves: &mut Option<Vec<Action>>,
    eval: &E,
    put_eval: &Q,
) -> (r: Eval)
    requires
        board.wf(),
        few_pieces(*board),
        entry_ok(entry),
        forall|b: &Board, m: &Vec<Action>| #[trigger] eval.requires((b, m)),
        forall|b: &Board, m: &Vec<Action>, v: Eval| #[trigger] eval.ensures((b, m), v) ==> -INF <= v <= INF,
        forall|h: u64, e: Eval| -INF <= e <= INF ==> #[trigger] put_eval.requires((h, e)),
        *old(moves) is None,
    ensures
        -INF <= r <= INF,
        eval_of(*board, entry, r, eval),
        match *final(moves) {
            Some(ms) => ms@ == crate::movegen::moves_spec(*board) && all_gen_ok(*board, ms@),
            None => true,
        },
{
    if let Some(e) = entry {
        if let Some(v) = e.eval {
            return v;
        }
    }
    let mv = board.generate_moves();
    let e = eval(board, &mv);
    *moves = Some(mv);
    put_eval(board.zobrist_hash, e);
    e
}

/// Principal variation search of the move at `move_index`, already played
/// on `board`: the first move, or any move near the leaves, gets the full
/// window; the others a reduced-depth null window first, searched again
/// in full when they beat `alpha`. The value is from the parent's side.
fn pvs<
    E: Fn(&Board, &Vec<Action>) -> Eval,
    X: Fn(bool) -> bool,
    G: Fn(u64) -> Option<TEntry>,
    P: Fn(u64, Value, Value, Action, Value, Eval, Depth),
    Q: Fn(u64, Eval),
    V: Fn(Option<Action>, Depth),
>(
    board: &mut Board,
    heur: &mut Heuristics,
    nt: NodeType,
    ply: Depth,
    depth: Depth,
    alpha: Value,
    beta: Value,
    killers: &mut Killers,
    move_index: usize,
    lmr: &Vec<u8>,
    eval: &E,
    expired: &X,
    tt_get: &G,
    tt_put: &P,
    put_eval: &Q,
    vote: &V,
) -> (r: Option<Value>)
    requires
        old(board).wf(),
        heur_ok(*old(heur)),
        1 <= depth < 64,
        ply as int + depth as int <= 127,
        in_window(alpha),
        in_window(beta),
        move_index > 0 && depth >= 2 ==> alpha < beta,
        lmr_ok(lmr@),
        outside_ok(eval, expired, tt_get, tt_put, put_eval, vote),
    ensures
        final(board).wf(),
        final(board)@ == old(board)@,
        heur_ok(*final(heur)),
        r matches Some(v) ==> in_window(v),
        exists|cc: ((Option<Value>, Option<NodeStore>), (Board, Option<Value>, Option<NodeStore>))| #[trigger] pvs_ok(*old(board), nt, ply, depth, alpha, beta, move_index as int, cc.0, cc.1, r, lmr@, eval, expired, tt_get),
        final(board).gametype == old(board).gametype,
    decreases depth, 1int, 0int,
{
    let nply = ply + 1;
    let ndepth = depth - 1;
    let child_t = child_node_type(nt, move_index);
    let ghost b2 = *board;
    if move_index == 0 || depth < 2 {
        let c1 = minimax(board, heur, child_t, nply, ndepth, -beta, -alpha, killers, lmr, eval, expired, tt_get, tt_put, put_eval, vote);
        let ghost o1 = choose|o: Option<NodeStore>| #[trigger] ab_result(b2, child_t, nply, ndepth, (-beta) as Value, (-alpha) as Value, c1, o, lmr@, eval, expired, tt_get);
        let r = match c1 {
            Some(v) => Some(-v),
            None => None,
        };
        proof {
            let cc: ((Option<Value>, Option<NodeStore>), (Board, Option<Value>, Option<NodeStore>)) = ((c1, o1), (b2, None, None));
            assert(pvs_ok(b2, nt, ply, depth, alpha, beta, move_index as int, cc.0, cc.1, r, lmr@, eval, expired, tt_get));
        }
        r
    } else {
        let t: usize = match nt {
            NodeType::Pv => 0,
            NodeType::Cut => 1,
            NodeType::All => 2,
        };
        let mi: usize = if move_index < 1023 {
            move_index
        } else {
            1023
        };
        let idx = (t * 256 + depth as usize) * 1024 + mi;
        assert(idx == lmr_index(nt, depth as int, move_index as int));
        assert((idx / 1024) % 256 == depth) by (nonlinear_arith)
            requires
                idx == (t * 256 + depth) * 1024 + mi,
                mi < 1024,
                t < 3,
                depth < 256,
        ;
        let d = lmr[idx];
        let c1 = minimax(board, heur, child_t, nply, d, -(alpha + 1), -alpha, killers, lmr, eval, expired, tt_get, tt_put, put_eval, vote);
        let ghost o1 = choose|o: Option<NodeStore>| #[trigger] ab_result(b2, child_t, nply, d, (-(alpha + 1)) as Value, (-alpha) as Value, c1, o, lmr@, eval, expired, tt_get);
        let v = match c1 {
            Some(v) => v,
            None => {
                proof {
                    let cc: ((Option<Value>, Option<NodeStore>), (Board, Option<Value>, Option<NodeStore>)) = ((c1, o1), (b2, None, None));
                    assert(pvs_ok(b2, nt, ply, depth, alpha, beta, move_index as int, cc.0, cc.1, None, lmr@, eval, expired, tt_get));
                }
                return None;
            },
        };
        let mut score = -v;
        if score > alpha && (beta > 1 + alpha || d < ndepth) {
            let re_t = research_node_type(nt);
            let ghost b3 = *board;
            let c2 = minimax(board, heur, re_t, nply, ndepth, -beta, -alpha, killers, lmr, eval, expired, tt_get, tt_put, put_eval, vote);
            let ghost o2 = choose|o: Option<NodeStore>| #[trigger] ab_result(b3, re_t, nply, ndepth, (-beta) as Value, (-alpha) as Value, c2, o, lmr@, eval, expired, tt_get);
            proof {
                assert(re_t == research_spec(nt));
            }
            let v2 = match c2 {
                Some(v) => v,
                None => {
                    proof {
                        let cc: ((Option<Value>, Option<NodeStore>), (Board, Option<Value>, Option<NodeStore>)) = ((c1, o1), (b3, c2, o2));
                        assert(pvs_ok(b2, nt, ply, depth, alpha, beta, move_index as int, cc.0, cc.1, None, lmr@, eval, expired, tt_get));
                    }
                    return None;
                },
            };
            score = -v2;
            proof {
                let cc: ((Option<Value>, Option<NodeStore>), (Board, Option<Value>, Option<NodeStore>)) = ((c1, o1), (b3, c2, o2));
                assert(pvs_ok(b2, nt, ply, depth, alpha, beta, move_index as int, cc.0, cc.1, Some(score), lmr@, eval, expired, tt_get));
            }
        } else {
            proof {
                let cc: ((Option<Value>, Option<NodeStore>), (Board, Option<Value>, Option<NodeStore>)) = ((c1, o1), (b2, None, None));
                assert(pvs_ok(b2, nt, ply, depth, alpha, beta, move_index as int, cc.0, cc.1, Some(score), lmr@, eval, expired, tt_get));
            }
        }
        Some(score)
    }
}

/// A move that cannot be played ends the loop with `None`.
proof fn lemma_qs_unplayable<
    E: Fn(&Board, &Vec<Action>) -> Eval,
    X: Fn(bool) -> bool,
    G: Fn(u64) -> Option<TEntry>,
>(
    b0: Board,
    order: Seq<Action>,
    ply: Depth,
    max_ply: Depth,
    alpha: Value,
    beta: Value,
    k: int,
    best: Option<(Value, Action)>,
    rb: Option<(Value, Action)>,
    eval: &E,
    expired: &X,
    tt_get: &G,
)
    requires
        0 <= k < order.len(),
        ply < max_ply,
        !can_do(b0@, order[k]),
    ensures
        qs_loop(b0, order, ply, max_ply, alpha, beta, k, best, None, rb, eval, expired, tt_get),
{
}

/// A move whose search gives `None` ends the loop with `None`.
proof fn lemma_qs_step_none<
    E: Fn(&Board, &Vec<Action>) -> Eval,
    X: Fn(bool) -> bool,
    G: Fn(u64) -> Option<TEntry>,
>(
    b0: Board,
    order: Seq<Action>,
    ply: Depth,
    max_ply: Depth,
    alpha: Value,
    beta: Value,
    k: int,
    best: Option<(Value, Action)>,
    rb: Option<(Value, Action)>,
    b2: Board,
    o2: Option<NodeStore>,
    eval: &E,
    expired: &X,
    tt_get: &G,
)
    requires
        0 <= k < order.len(),
        ply < max_ply,
        can_do(b0@, order[k]),
        b2.wf(),
        b2@ == do_spec(b0@, order[k]),
        qs_result(b2, (ply + 1) as Depth, max_ply, (-beta) as Value, (-alpha) as Value, None, o2, eval, expired, tt_get),
    ensures
        qs_loop(b0, order, ply, max_ply, alpha, beta, k, best, None, rb, eval, expired, tt_get),
{
    let bc: (Board, Option<Value>, Option<NodeStore>) = (b2, None, o2);
    assert(bc.0.wf());
}

/// A move whose search gives `c` raises `alpha` to `a2` and the best move
/// to `best2`: the loop ends with `a2` when that fails high, and goes on
/// with `a2` and `best2` otherwise.
proof fn lemma_qs_step_some<
    E: Fn(&Board, &Vec<Action>) -> Eval,
    X: Fn(bool) -> bool,
    G: Fn(u64) -> Option<TEntry>,
>(
    b0: Board,
    order: Seq<Action>,
    ply: Depth,
    max_ply: Depth,
    alpha: Value,
    beta: Value,
    k: int,
    best: Option<(Value, Action)>,
    b2: Board,
    c: Value,
    o2: Option<NodeStore>,
    eval: &E,
    expired: &X,
    tt_get: &G,
)
    requires
        0 <= k < order.len(),
        ply < max_ply,
        can_do(b0@, order[k]),
        b2.wf(),
        b2@ == do_spec(b0@, order[k]),
        qs_result(b2, (ply + 1) as Depth, max_ply, (-beta) as Value, (-alpha) as Value, Some(c), o2, eval, expired, tt_get),
    ensures
        ({
            let v = (-c) as Value;
            let a2 = vmax(alpha, v);
            let best2 = next_best(best, v, order[k]);
            &&& a2 >= beta ==> qs_loop(b0, order, ply, max_ply, alpha, beta, k, best, Some(a2), best2, eval, expired, tt_get)
            &&& forall|rr: Option<Value>, rrb: Option<(Value, Action)>|
                a2 < beta && #[trigger] qs_loop(b0, order, ply, max_ply, a2, beta, k + 1, best2, rr, rrb, eval, expired, tt_get)
                    ==> qs_loop(b0, order, ply, max_ply, alpha, beta, k, best, rr, rrb, eval, expired, tt_get)
        }),
{
    let bc: (Board, Option<Value>, Option<NodeStore>) = (b2, Some(c), o2);
    assert(bc.0.wf());
}

/// A run of the loop of the quiescence search over the noisy moves in some
/// order, after the clock, the table and the evaluation let it start, is a
/// result of the quiescence search, with the store `out` that run makes.
proof fn lemma_qs_assemble<
    E: Fn(&Board, &Vec<Action>) -> Eval,
    X: Fn(bool) -> bool,
    G: Fn(u64) -> Option<TEntry>,
>(
    b: Board,
    b0: Board,
    order: Seq<Action>,
    ply: Depth,
    max_ply: Depth,
    alpha0: Value,
    beta0: Value,
    e: Option<TEntry>,
    ev: Eval,
    a: Value,
    al: Value,
    bb: Value,
    r: Option<Value>,
    out: Option<NodeStore>,
    eval: &E,
    expired: &X,
    tt_get: &G,
)
    requires
        b0 == b,
        expired.ensures((true,), false),
        terminal_score_spec(b, ply) is None,
        few_pieces(b),
        tt_get.ensures((b.zobrist_hash,), e),
        tt_quiescence_spec(e, ply, alpha0, beta0) == TtProbe::Window(a, bb),
        vmax(a, ev) == al,
        eval_of(b, e, ev, eval),
        al < bb,
        ply < max_ply,
        reordered(order, noisy_of(b, moves_spec(b), moves_spec(b).len() as int)),
        match out {
            Some(st) => {
                &&& r is Some
                &&& st.lo == a && st.hi == bb && st.eval == ev && st.depth == QS_DEPTH
                &&& qs_loop(b0, order, ply, max_ply, al, bb, 0, None, r, st.best, eval, expired, tt_get)
            },
            None => r is None && qs_loop(b0, order, ply, max_ply, al, bb, 0, None, r, None, eval, expired, tt_get),
        },
    ensures
        qs_result(b, ply, max_ply, alpha0, beta0, r, out, eval, expired, tt_get),
{
}

/// The quiescence search: the side to move may stand on its evaluation or
/// try its noisy moves, down to `max_ply`. The result is one `qs_result`
/// allows for the answers of the clock, the table and the evaluation:
/// `None` only when the clock ran out, a board has too many pieces, or a
/// generated move cannot be played.
pub fn qsearch<
    E: Fn(&Board, &Vec<Action>) -> Eval,
    X: Fn(bool) -> bool,
    G: Fn(u64) -> Option<TEntry>,
    P: Fn(u64, Value, Value, Action, Value, Eval, Depth),
    Q: Fn(u64, Eval),
    V: Fn(Option<Action>, Depth),
>(
    board: &mut Board,
    heur: &mut Heuristics,
    ply: Depth,
    max_ply: Depth,
    alpha0: Value,
    beta: Value,
    killers: &mut Killers,
    eval: &E,
    expired: &X,
    tt_get: &G,
    tt_put: &P,
    put_eval: &Q,
    vote: &V,
) -> (r: Option<Value>)
    requires
        old(board).wf(),
        heur_ok(*old(heur)),
        max_ply < 255,
        in_window(alpha0),
        in_window(beta),
        outside_ok(eval, expired, tt_get, tt_put, put_eval, vote),
    ensures
        final(board).wf(),
        final(board)@ == old(board)@,
        heur_ok(*final(heur)),
        r matches Some(v) ==> in_window(v),
        final(board).gametype == old(board).gametype,
        exists|out: Option<NodeStore>|
            #[trigger] qs_result(*old(board), ply, max_ply, alpha0, beta, r, out, eval, expired, tt_get) && stores_made(
                out,
                old(board).zobrist_hash,
                ply,
                QS_DEPTH,
                alpha0,
                beta,
                r,
                tt_put,
                vote,
            ),
    decreases 0int, 0int, max_ply - ply,
{
    let ghost b_in = *board;
    let ghost a_in = alpha0;
    let ghost be_in = beta;
    let mut lo = alpha0;
    let mut hi = beta;
    let ghost no_store: Option<NodeStore> = None;
    let stop = expired(true);
    if stop {
        proof {
            assert(qs_result(b_in, ply, max_ply, alpha0, beta, None, no_store, eval, expired, tt_get));
        }
        return None;
    }
    let terminal = terminal_score(board, ply);
    if terminal.is_some() {
        proof {
            assert(qs_result(b_in, ply, max_ply, alpha0, beta, terminal, no_store, eval, expired, tt_get));
        }
        return terminal;
    }
    if !board.has_few_pieces() {
        proof {
            assert(qs_result(b_in, ply, max_ply, alpha0, beta, None, no_store, eval, expired, tt_get));
        }
        return None;
    }
    let entry = tt_get(board.zobrist_hash);
    let pv = match entry {
        Some(e) => Some(e.pv),
        None => None,
    };
    match tt_quiescence(entry, ply, lo, hi) {
        TtProbe::Cutoff(v) => {
            proof {
                assert(qs_result(b_in, ply, max_ply, alpha0, beta, Some(v), no_store, eval, expired, tt_get));
            }
            return Some(v);
        },
        TtProbe::Window(a, b) => {
            lo = a;
            hi = b;
        },
    }
    let mut moves: Option<Vec<Action>> = None;
    let ev = eval_with_caches(board, entry, &mut moves, eval, put_eval);
    // stand pat
    let mut alpha = if lo >= ev {
        lo
    } else {
        ev
    };
    if alpha >= hi {
        proof {
            assert(qs_result(b_in, ply, max_ply, alpha0, beta, Some(alpha), no_store, eval, expired, tt_get));
        }
        return Some(alpha);
    }
    // depth cutoff
    if ply >= max_ply {
        proof {
            assert(qs_result(b_in, ply, max_ply, alpha0, beta, Some(ev), no_store, eval, expired, tt_get));
        }
        return Some(ev);
    }
    let all = match moves {
        Some(ms) => ms,
        None => board.generate_moves(),
    };
    let mut noisy: Vec<Action> = Vec::new();
    let mut i: usize = 0;
    while i < all.len()
        invariant
            0 <= i <= all@.len(),
            all_gen_ok(*board, all@),
            board.wf(),
            few_pieces(*board),
            forall|k: int| 0 <= k < noisy@.len() ==> (#[trigger] noisy@[k]).wf(),
            noisy@ == noisy_of(*board, all@, i as int),
        decreases all@.len() - i,
    {
        let m = all[i];
        assert(gen_ok(*board, all@[i as int]));
        if board.is_noisy(&m) {
            noisy.push(m);
        }
        i += 1;
    }
    let ghost b0 = *board;
    let ghost s0 = move_infos(b0, noisy@, heur.history@, killers@);
    let ghost cm0 = heur.countermove@[last_move_slot(b0)];
    let ghost noisy0 = noisy@;
    let moves = order_moves(board, noisy, &heur.history, &heur.countermove, pv, killers);
    let ghost order = moves_of(moves@);
    let ghost al0 = alpha;
    proof {
        lemma_ordered_wf(moves@, s0, pv_or_pass(pv), cm0);
        lemma_reordered(moves@, s0, noisy0, pv_or_pass(pv), cm0);
    }
    let mut child_klr = no_killers();
    let mut best: Option<(Value, MoveInfo)> = None;
    let mut k: usize = 0;
    while k < moves.len()
        invariant_except_break
            0 <= k <= moves@.len(),
            alpha < hi,
            forall|rr: Option<Value>, rrb: Option<(Value, Action)>|
                #[trigger] qs_loop(b0, order, ply, max_ply, alpha, hi, k as int, best_of(best), rr, rrb, eval, expired, tt_get)
                    ==> qs_loop(b0, order, ply, max_ply, al0, hi, 0, None, rr, rrb, eval, expired, tt_get),
            qs_loop(b0, order, ply, max_ply, alpha, hi, k as int, best_of(best), Some(alpha), best_of(best), eval, expired, tt_get)
                ==> qs_loop(b0, order, ply, max_ply, al0, hi, 0, None, Some(alpha), best_of(best), eval, expired, tt_get),
            order.len() == moves@.len(),
        invariant
            no_store is None,
            a_in == alpha0,
            be_in == beta,
            b0 == b_in,
            b_in == *old(board),
            expired.ensures((true,), false),
            terminal_score_spec(b_in, ply) is None,
            few_pieces(b_in),
            tt_get.ensures((b_in.zobrist_hash,), entry),
            tt_quiescence_spec(entry, ply, a_in, be_in) == TtProbe::Window(lo, hi),
            vmax(lo, ev) == al0,
            board.gametype == b_in.gametype,
            eval_of(b_in, entry, ev, eval),
            al0 < hi,
            reordered(order, noisy_of(b_in, moves_spec(b_in), moves_spec(b_in).len() as int)),
            board.wf(),
            board@ == b0@,
            b0@ == old(board)@,
            heur_ok(*heur),
            ply < max_ply,
            max_ply < 255,
            forall|j: int| 0 <= j < moves@.len() ==> (#[trigger] moves@[j]).mv.wf(),
            order == moves_of(moves@),
            in_window(alpha),
            in_window(hi),
            outside_ok(eval, expired, tt_get, tt_put, put_eval, vote),
            best matches Some((v, _)) ==> in_window(v),
        ensures
            in_window(alpha),
            best matches Some((v, _)) ==> in_window(v),
            qs_loop(b0, order, ply, max_ply, al0, hi, 0, None, Some(alpha), best_of(best), eval, expired, tt_get),
        decreases moves@.len() - k,
    {
        let mvi = moves[k];
        assert(order[k as int] == mvi.mv);
        if !board.can_play(mvi.mv) {
            proof {
                lemma_qs_unplayable(b0, order, ply, max_ply, alpha, hi, k as int, best_of(best), None, eval, expired, tt_get);
                lemma_qs_assemble(b_in, b0, order, ply, max_ply, a_in, be_in, entry, ev, lo, al0, hi, None, no_store, eval, expired, tt_get);
            }
            return None;
        }
        let ghost m0 = board@;
        proof {
            board.lemma_wf_model();
            lemma_undo_inverts_do(m0, mvi.mv);
        }
        board.do_action(mvi.mv);
        let ghost b2 = *board;
        let opt = qsearch(board, heur, ply + 1, max_ply, -hi, -alpha, &mut child_klr, eval, expired, tt_get, tt_put, put_eval, vote);
        board.undo_action();
        let ghost a_prev = alpha;
        let ghost best_prev = best_of(best);
        let ghost o2 = choose|o: Option<NodeStore>| #[trigger] qs_result(b2, (ply + 1) as Depth, max_ply, (-hi) as Value, (-alpha) as Value, opt, o, eval, expired, tt_get);
        let value = match opt {
            Some(v) => -v,
            None => {
                proof {
                    lemma_qs_step_none(b0, order, ply, max_ply, alpha, hi, k as int, best_prev, None, b2, o2, eval, expired, tt_get);
                    lemma_qs_assemble(b_in, b0, order, ply, max_ply, a_in, be_in, entry, ev, lo, al0, hi, None, no_store, eval, expired, tt_get);
                }
                return None;
            },
        };
        let better = match best {
            Some((v, _)) => value > v,
            None => true,
        };
        if better {
            best = Some((value, mvi));
        }
        if value > alpha {
            alpha = value;
        }
        proof {
            assert(alpha == vmax(a_prev, (-opt->0) as Value));
            assert(best_of(best) == next_best(best_prev, (-opt->0) as Value, order[k as int]));
            lemma_qs_step_some(b0, order, ply, max_ply, a_prev, hi, k as int, best_prev, b2, opt->0, o2, eval, expired, tt_get);
        }
        if alpha >= hi {
            break;
        }
        k += 1;
    }
    if let Some((value, mvi)) = best {
        tt_put(board.zobrist_hash, lo, hi, mvi.mv, value, ev, QS_DEPTH);
    }
    proof {
        let st = NodeStore { lo: lo, hi: hi, eval: ev, best: best_of(best), depth: QS_DEPTH };
        lemma_qs_assemble(b_in, b0, order, ply, max_ply, a_in, be_in, entry, ev, lo, al0, hi, Some(alpha), Some(st), eval, expired, tt_get);
        assert(board.zobrist_hash == b_in.zobrist_hash);
        assert(stores_made(Some(st), b_in.zobrist_hash, ply, QS_DEPTH, alpha0, beta, Some(alpha), tt_put, vote));
    }
    Some(alpha)
}

/// The alpha-beta search of `board` to `depth` at `ply` from the root, the
/// window `alpha..beta`, the node expected of type `nt`. The result is one
/// `ab_result` allows for the answers of the clock, the table and the
/// evaluation: `None` only when the clock ran out, a board has too many
/// pieces, a generated move cannot be played, or there are more moves than
/// the count of quiet moves holds. The board is left as it was.
#[verifier::rlimit(100)]
#[verifier::spinoff_prover]
pub fn minimax<
    E: Fn(&Board, &Vec<Action>) -> Eval,
    X: Fn(bool) -> bool,
    G: Fn(u64) -> Option<TEntry>,
    P: Fn(u64, Value, Value, Action, Value, Eval, Depth),
    Q: Fn(u64, Eval),
    V: Fn(Option<Action>, Depth),
>(
    board: &mut Board,
    heur: &mut Heuristics,
    nt: NodeType,
    ply: Depth,
    depth: Depth,
    alpha: Value,
    beta: Value,
    killers: &mut Killers,
    lmr: &Vec<u8>,
    eval: &E,
    expired: &X,
    tt_get: &G,
    tt_put: &P,
    put_eval: &Q,
    vote: &V,
) -> (r: Option<Value>)
    requires
        old(board).wf(),
        heur_ok(*old(heur)),
        depth < 64,
        ply as int + depth as int <= 127,
        in_window(alpha),
        in_window(beta),
        null_move_ok(nt, ply, depth, beta),
        lmr_ok(lmr@),
        outside_ok(eval, expired, tt_get, tt_put, put_eval, vote),
    ensures
        final(board).wf(),
        final(board)@ == old(board)@,
        heur_ok(*final(heur)),
        r matches Some(v) ==> in_window(v),
        depth > 0 && ply == 0 && r is Some && terminal_score_spec(*old(board), ply) is Some ==> r
            == terminal_score_spec(*old(board), ply),
        final(board).gametype == old(board).gametype,
        exists|out: Option<NodeStore>|
            #[trigger] ab_result(*old(board), nt, ply, depth, alpha, beta, r, out, lmr@, eval, expired, tt_get) && stores_made(
                out,
                old(board).zobrist_hash,
                ply,
                depth,
                alpha,
                beta,
                r,
                tt_put,
                vote,
            ),
    decreases depth, 2int, 0int,
{
    let ghost b_in = *board;
    let mut lo = alpha;
    let mut hi = beta;
    let ghost no_store: Option<NodeStore> = None;
    let stop = expired(false);
    if stop {
        proof {
            assert(ab_result(b_in, nt, ply, depth, alpha, beta, None, no_store, lmr@, eval, expired, tt_get));
        }
        return None;
    }
    // depth cutoff
    if depth == 0 {
        let r = qsearch(board, heur, ply, ply * 2, alpha, beta, killers, eval, expired, tt_get, tt_put, put_eval, vote);
        let ghost o = choose|o: Option<NodeStore>|
            #[trigger] qs_result(b_in, ply, (ply * 2) as Depth, alpha, beta, r, o, eval, expired, tt_get) && stores_made(
                o,
                b_in.zobrist_hash,
                ply,
                QS_DEPTH,
                alpha,
                beta,
                r,
                tt_put,
                vote,
            );
        proof {
            assert(ab_result(b_in, nt, ply, depth, alpha, beta, r, o, lmr@, eval, expired, tt_get));
        }
        return r;
    }
    // mate distance pruning
    if ply != 0 {
        let (a, b) = mate_window(ply, lo, hi);
        lo = a;
        hi = b;
        if lo >= hi {
            proof {
                assert(ab_result(b_in, nt, ply, depth, alpha, beta, Some(lo), no_store, lmr@, eval, expired, tt_get));
            }
            return Some(lo);
        }
    }
    // terminal position
    let terminal = terminal_score(board, ply);
    if terminal.is_some() {
        proof {
            assert(ab_result(b_in, nt, ply, depth, alpha, beta, terminal, no_store, lmr@, eval, expired, tt_get));
        }
        return terminal;
    }
    if !board.has_few_pieces() {
        proof {
            assert(ab_result(b_in, nt, ply, depth, alpha, beta, None, no_store, lmr@, eval, expired, tt_get));
        }
        return None;
    }
    // table lookup
    let ghost (a1, b1) = (lo, hi);
    let mut entry = tt_get(board.zobrist_hash);
    let ghost e1 = entry;
    let mut pv = match entry {
        Some(e) => Some(e.pv),
        None => None,
    };
    match tt_search(entry, depth, ply, lo, hi) {
        TtProbe::Cutoff(v) => {
            proof {
                lemma_ab_cutoff(b_in, nt, ply, depth, alpha, beta, e1, v, lmr@, eval, expired, tt_get);
            }
            return Some(v);
        },
        TtProbe::Window(a, b) => {
            lo = a;
            hi = b;
        },
    }
    // internal iterative deepening
    if depth >= 4 && pv.is_none() {
        let r: Depth = 2 + (depth - 2) / 3;
        let _ = minimax(board, heur, nt, ply, depth - r, lo, hi, killers, lmr, eval, expired, tt_get, tt_put, put_eval, vote);
        entry = tt_get(board.zobrist_hash);
        pv = match entry {
            Some(e) => Some(e.pv),
            None => None,
        };
        if !board.has_few_pieces() {
            proof {
                lemma_ab_from_node(b_in, *board, nt, ply, depth, alpha, beta, lo, hi, e1, entry, None, no_store, lmr@, eval, expired, tt_get);
                assert(ab_result(b_in, nt, ply, depth, alpha, beta, None, no_store, lmr@, eval, expired, tt_get));
            }
            return None;
        }
    }
    let ghost bn = *board;
    proof {
        assert(ab_ready(b_in, bn, ply, depth, alpha, beta, lo, hi, e1, entry, expired, tt_get));
    }
    // static evaluation
    let mut moves: Option<Vec<Action>> = None;
    let ev = eval_with_caches(board, entry, &mut moves, eval, put_eval);
    // razoring
    let mut razor = false;
    if nt != NodeType::Pv && depth <= 6 {
        let d = depth as i32;
        assert(0 <= 200 * d <= 1200 && 0 <= 200 * d * d <= 7200) by (nonlinear_arith)
            requires
                0 <= d <= 6,
        ;
        razor = (ev as i32) < (lo as i32 - 500 - 200 * d * d);
    }
    if razor {
        let r = qsearch(board, heur, ply, ply * 2, lo, hi, killers, eval, expired, tt_get, tt_put, put_eval, vote);
        let ghost o = choose|o: Option<NodeStore>|
            #[trigger] qs_result(bn, ply, (ply * 2) as Depth, lo, hi, r, o, eval, expired, tt_get) && stores_made(
                o,
                bn.zobrist_hash,
                ply,
                QS_DEPTH,
                lo,
                hi,
                r,
                tt_put,
                vote,
            );
        proof {
            lemma_qs_store_depth(bn, ply, (ply * 2) as Depth, lo, hi, r, o, eval, expired, tt_get);
            assert(ab_node(bn, nt, ply, depth, lo, hi, entry, r, o, lmr@, eval, expired, tt_get));
            lemma_ab_from_node(b_in, bn, nt, ply, depth, alpha, beta, lo, hi, e1, entry, r, o, lmr@, eval, expired, tt_get);
            assert(bn.zobrist_hash == b_in.zobrist_hash);
            assert(stores_made(o, b_in.zobrist_hash, ply, depth, alpha, beta, r, tt_put, vote));
        }
        return r;
    }
    // futility pruning
    if depth <= 4 && ev as i64 > hi as i64 + 150 + 100 * depth as i64 && ev > -6000 && ev < 6000 {
        proof {
            assert(ab_node(bn, nt, ply, depth, lo, hi, entry, Some(ev), no_store, lmr@, eval, expired, tt_get));
            lemma_ab_from_node(b_in, bn, nt, ply, depth, alpha, beta, lo, hi, e1, entry, Some(ev), no_store, lmr@, eval, expired, tt_get);
        }
        return Some(ev);
    }
    // null move pruning
    let ghost mut nmw: (Board, Option<Value>, Option<NodeStore>) = (b_in, None, None);
    if nt == NodeType::Cut && depth > 2 && ev >= hi + 50 {
        let r: Depth = 2 + (depth - 2) / 3;
        let mut nm_klr = no_killers();
        let pass = Action::Pass();
        if !board.can_play(pass) {
            proof {
                assert(ab_node(bn, nt, ply, depth, lo, hi, entry, None, no_store, lmr@, eval, expired, tt_get));
                lemma_ab_from_node(b_in, bn, nt, ply, depth, alpha, beta, lo, hi, e1, entry, None, no_store, lmr@, eval, expired, tt_get);
            }
            return None;
        }
        let ghost m0 = board@;
        proof {
            board.lemma_wf_model();
            lemma_undo_inverts_do(m0, pass);
        }
        board.do_action(pass);
        let ghost bp = *board;
        let value = minimax(board, heur, NodeType::All, ply + 1, depth - r, -hi, -hi + 1, &mut nm_klr, lmr, eval, expired, tt_get, tt_put, put_eval, vote);
        board.undo_action();
        let ghost onm = choose|o: Option<NodeStore>|
            #[trigger] ab_result(bp, NodeType::All, (ply + 1) as Depth, (depth - r) as Depth, (-hi) as Value, (-hi + 1) as Value, value, o, lmr@, eval, expired, tt_get);
        proof {
            nmw = (bp, value, onm);
            assert(nmw.0.wf());
        }
        let value = match value {
            Some(v) => -v,
            None => {
                proof {
                    assert(ab_node(bn, nt, ply, depth, lo, hi, entry, None, no_store, lmr@, eval, expired, tt_get));
                    lemma_ab_from_node(b_in, bn, nt, ply, depth, alpha, beta, lo, hi, e1, entry, None, no_store, lmr@, eval, expired, tt_get);
                }
                return None;
            },
        };
        if value >= hi {
            proof {
                assert(ab_node(bn, nt, ply, depth, lo, hi, entry, Some(value), no_store, lmr@, eval, expired, tt_get));
                lemma_ab_from_node(b_in, bn, nt, ply, depth, alpha, beta, lo, hi, e1, entry, Some(value), no_store, lmr@, eval, expired, tt_get);
            }
            return Some(value);
        }
        if !board.has_few_pieces() {
            proof {
                lemma_ab_moves_crowded(bn, *board, nt, ply, depth, lo, hi, entry, ev, lmr@, eval, expired, tt_get);
                lemma_ab_from_moves(b_in, bn, nt, ply, depth, alpha, beta, lo, hi, e1, entry, ev, nmw, None, no_store, lmr@, eval, expired, tt_get);
            }
            return None;
        }
    }
    proof {
        assert(moves_pre(bn, nt, ply, depth, lo, hi, entry, ev, nmw, lmr@, eval, expired, tt_get));
    }
    let alpha0 = lo;
    let ghost bm = if moves is Some {
        bn
    } else {
        *board
    };
    let all = match moves {
        Some(ms) => ms,
        None => board.generate_moves(),
    };
    let ghost b0 = *board;
    proof {
        assert forall|k: int| 0 <= k < all@.len() implies (#[trigger] all@[k]).wf() by {
            assert(gen_ok(*board, all@[k]));
        }
    }
    let ghost all0 = all@;
    let ghost h0 = heur.history@;
    let ghost kl0 = killers@;
    let ghost s0 = move_infos(b0, all@, heur.history@, killers@);
    let ghost cm0 = heur.countermove@[last_move_slot(b0)];
    assert(all0 == moves_spec(bm));
    assert(s0 =~= move_infos(bm, moves_spec(bm), h0, kl0));
    assert(pv == pv_of(entry));
    let moves = order_moves(board, all, &heur.history, &heur.countermove, pv, killers);
    let ghost order = moves_of(moves@);
    proof {
        lemma_ordered_wf(moves@, s0, pv_or_pass(pv), cm0);
        lemma_reordered(moves@, s0, all0, pv_or_pass(pv), cm0);
    }
    if moves.len() as u64 >= 0x7fff_ffff_ffff_ffffu64 {
        // more moves than the count of quiet moves can count
        proof {
            lemma_ab_moves(bn, bm, moves@, h0, kl0, cm0, entry, ev, nt, ply, depth, lo, hi, None, no_store, lmr@, eval, expired, tt_get);
            lemma_ab_from_moves(b_in, bn, nt, ply, depth, alpha, beta, lo, hi, e1, entry, ev, nmw, None, no_store, lmr@, eval, expired, tt_get);
        }
        return None;
    }
    let mut best: Option<(Value, MoveInfo)> = None;
    let ghost mut best_at: int = 0;
    let mut child_klr = no_killers();
    let mut explored_quiet: i64 = 0;
    let mut k: usize = 0;
    while k < moves.len()
        invariant_except_break
            0 <= k <= moves@.len(),
            explored_quiet == quiet_count(moves@, k as int),
            k > 0 ==> lo < hi,
            best is Some ==> best_at <= k,
            forall|rr: Option<Value>, rrb: Option<(Value, Action)>|
                #[trigger] ab_loop(b0@, order, nt, ply, depth, lo, hi, k as int, best_of(best), rr, rrb, lmr@, eval, expired, tt_get)
                    ==> ab_loop(b0@, order, nt, ply, depth, alpha0, hi, 0, None, rr, rrb, lmr@, eval, expired, tt_get),
            ab_loop(b0@, order, nt, ply, depth, lo, hi, k as int, best_of(best), Some(lo), best_of(best), lmr@, eval, expired, tt_get)
                ==> ab_loop(b0@, order, nt, ply, depth, alpha0, hi, 0, None, Some(lo), best_of(best), lmr@, eval, expired, tt_get),
        invariant
            no_store is None,
            b0@ == bn@,
            bm.wf(),
            bm@ == bn@,
            few_pieces(bm),
            b_in == *old(board),
            ab_ready(b_in, bn, ply, depth, alpha, beta, alpha0, hi, e1, entry, expired, tt_get),
            few_pieces(bn),
            moves_pre(bn, nt, ply, depth, alpha0, hi, entry, ev, nmw, lmr@, eval, expired, tt_get),
            stably_ordered(moves@, move_infos(bm, moves_spec(bm), h0, kl0), pv_or_pass(pv_of(entry)), cm0),
            moves_spec(bm).len() == moves@.len(),
            board.gametype == b_in.gametype,
            order == moves_of(moves@),
            order.len() == moves@.len(),
            board.wf(),
            board@ == b0@,
            b0@ == old(board)@,
            heur_ok(*heur),
            1 <= depth < 64,
            ply as int + depth as int <= 127,
            forall|j: int| 0 <= j < moves@.len() ==> (#[trigger] moves@[j]).mv.wf(),
            in_window(lo),
            in_window(hi),
            lmr_ok(lmr@),
            outside_ok(eval, expired, tt_get, tt_put, put_eval, vote),
            best matches Some((v, m)) ==> in_window(v) && 0 <= best_at < moves@.len() && moves@[best_at] == m
                && explored_quiet >= quiet_count(moves@, best_at + 1),
            0 <= explored_quiet <= moves@.len(),
            moves@.len() < 0x7fff_ffff_ffff_ffff,
        ensures
            in_window(lo),
            best matches Some((v, m)) ==> in_window(v) && 0 <= best_at < moves@.len() && moves@[best_at] == m
                && explored_quiet >= quiet_count(moves@, best_at + 1),
            0 <= explored_quiet <= moves@.len(),
            ab_loop(b0@, order, nt, ply, depth, alpha0, hi, 0, None, Some(lo), best_of(best), lmr@, eval, expired, tt_get),
        decreases moves@.len() - k,
    {
        let mvi = moves[k];
        assert(order[k as int] == mvi.mv);
        if !board.can_play(mvi.mv) {
            proof {
                lemma_ab_unplayable(b0, order, nt, ply, depth, lo, hi, k as int, best_of(best), None, lmr@, eval, expired, tt_get);
                lemma_ab_moves(bn, bm, moves@, h0, kl0, cm0, entry, ev, nt, ply, depth, alpha0, hi, None, no_store, lmr@, eval, expired, tt_get);
                lemma_ab_from_moves(b_in, bn, nt, ply, depth, alpha, beta, alpha0, hi, e1, entry, ev, nmw, None, no_store, lmr@, eval, expired, tt_get);
                assert(ab_result(b_in, nt, ply, depth, alpha, beta, None, no_store, lmr@, eval, expired, tt_get));
            }
            return None;
        }
        let ghost m0 = board@;
        proof {
            board.lemma_wf_model();
            lemma_undo_inverts_do(m0, mvi.mv);
        }
        board.do_action(mvi.mv);
        let ghost b2 = *board;
        let opt = pvs(board, heur, nt, ply, depth, lo, hi, &mut child_klr, k, lmr, eval, expired, tt_get, tt_put, put_eval, vote);
        board.undo_action();
        let ghost a_prev = lo;
        let ghost best_prev = best_of(best);
        let ghost cc = choose|cc: ((Option<Value>, Option<NodeStore>), (Board, Option<Value>, Option<NodeStore>))|
            #[trigger] pvs_ok(b2, nt, ply, depth, a_prev, hi, k as int, cc.0, cc.1, opt, lmr@, eval, expired, tt_get);
        let value = match opt {
            Some(v) => v,
            None => {
                proof {
                    lemma_ab_step(b0, order, nt, ply, depth, lo, hi, k as int, best_prev, None, b2, cc.0, cc.1, opt, lmr@, eval, expired, tt_get);
                    lemma_ab_moves(bn, bm, moves@, h0, kl0, cm0, entry, ev, nt, ply, depth, alpha0, hi, None, no_store, lmr@, eval, expired, tt_get);
                    lemma_ab_from_moves(b_in, bn, nt, ply, depth, alpha, beta, alpha0, hi, e1, entry, ev, nmw, None, no_store, lmr@, eval, expired, tt_get);
                    assert(ab_result(b_in, nt, ply, depth, alpha, beta, None, no_store, lmr@, eval, expired, tt_get));
                }
                return None;
            },
        };
        proof {
            lemma_quiet_count(moves@, k + 1, k as int);
            lemma_quiet_count_nonneg(moves@, k as int);
        }
        let better = match best {
            Some((v, _)) => value > v,
            None => true,
        };
        if better {
            best = Some((value, mvi));
            proof {
                best_at = k as int;
            }
        }
        if value > lo {
            lo = value;
        }
        if mvi.quiet {
            explored_quiet += 1;
        }
        proof {
            if best is Some {
                lemma_quiet_count(moves@, k + 1, best_at + 1);
            }
            assert(lo == vmax(a_prev, value));
            assert(best_of(best) == next_best(best_prev, value, order[k as int]));
            lemma_ab_step(b0, order, nt, ply, depth, a_prev, hi, k as int, best_prev, None, b2, cc.0, cc.1, opt, lmr@, eval, expired, tt_get);
        }
        if lo >= hi {
            break;
        }
        k += 1;
    }
    if let Some((_, mvi)) = best {
        proof {
            let f = first_index_of(moves@, mvi.mv, 0);
            lemma_first_index_of(moves@, mvi.mv, 0);
            assert(f <= best_at) by {
                if f > best_at {
                    assert(moves@[best_at].mv != mvi.mv);
                }
            }
            if has_quiet_before(moves@, f) && mvi.quiet {
                lemma_quiet_count(moves@, best_at, f);
                lemma_quiet_count(moves@, best_at + 1, best_at);
            }
        }
        update_heuristics(
            board,
            &mut heur.history,
            &mut heur.countermove,
            depth,
            lo,
            hi,
            killers,
            pv,
            mvi,
            moves.as_slice(),
            explored_quiet,
        );
    }
    if let Some((value, mvi)) = best {
        tt_put(board.zobrist_hash, alpha0, hi, mvi.mv, value, ev, depth);
    }
    // vote for the best move at the root
    if ply == 0 && lo > alpha && lo < beta {
        let choice = match best {
            Some((_, mvi)) => Some(mvi.mv),
            None => None,
        };
        vote(choice, depth);
    }
    proof {
        let st = NodeStore { lo: alpha0, hi: hi, eval: ev, best: best_of(best), depth: depth };
        lemma_ab_moves(bn, bm, moves@, h0, kl0, cm0, entry, ev, nt, ply, depth, alpha0, hi, Some(lo), Some(st), lmr@, eval, expired, tt_get);
        lemma_ab_from_moves(b_in, bn, nt, ply, depth, alpha, beta, alpha0, hi, e1, entry, ev, nmw, Some(lo), Some(st), lmr@, eval, expired, tt_get);
        assert(board.zobrist_hash == b_in.zobrist_hash);
        assert(stores_made(Some(st), b_in.zobrist_hash, ply, depth, alpha, beta, Some(lo), tt_put, vote));
    }
    Some(lo)
}

} // verus!
