use std::cell::{Cell, RefCell};

use bee_search::action::Action;
use bee_search::board::Board;
use bee_search::engine::{Depth, INF};
use bee_search::eval::{Eval, Value};
use bee_search::search::{minimax, qsearch, Heuristics, LMR_LEN};
use bee_search::search_rules::{no_killers, NodeType};
use bee_search::tt::TEntry;

const TABLE: usize = 2 * (1024 + 8) * 1024 + 1;

fn heuristics() -> Heuristics {
    Heuristics { history: vec![0; TABLE], countermove: vec![Action::Pass(); TABLE] }
}

fn lmr() -> Vec<u8> {
    let mut t = vec![0u8; LMR_LEN];
    for (i, v) in t.iter_mut().enumerate() {
        let d = (i / 1024) % 256;
        *v = if d >= 2 { (d - 1) as u8 } else { 0 };
    }
    t
}

fn flat(_: &Board, _: &Vec<Action>) -> Eval {
    0
}

#[test]
fn a_search_leaves_the_board_as_it_was() {
    let mut board = Board::new();
    let before = board.game_string();
    let mut heur = heuristics();
    let mut killers = no_killers();
    let nodes = Cell::new(0u64);
    let expired = |_: bool| {
        nodes.set(nodes.get() + 1);
        false
    };
    let tt_get = |_: u64| -> Option<TEntry> { None };
    let tt_put = |_: u64, _: Value, _: Value, _: Action, _: Value, _: Eval, _: Depth| {};
    let put_eval = |_: u64, _: Eval| {};
    let voted = Cell::new(false);
    let vote = |_: Option<Action>, _: Depth| voted.set(true);
    let table = lmr();
    let v = minimax(&mut board, &mut heur, NodeType::Pv, 0, 2, -INF, INF, &mut killers, &table, &flat, &expired, &tt_get, &tt_put, &put_eval, &vote);
    // every position evaluates to 0, so the search does too
    assert_eq!(v, Some(0));
    assert_eq!(board.game_string(), before);
    assert!(nodes.get() > 1);
}

#[test]
fn an_expired_clock_stops_the_search() {
    let mut board = Board::new();
    let mut heur = heuristics();
    let mut killers = no_killers();
    let expired = |_: bool| true;
    let tt_get = |_: u64| -> Option<TEntry> { None };
    let tt_put = |_: u64, _: Value, _: Value, _: Action, _: Value, _: Eval, _: Depth| {};
    let put_eval = |_: u64, _: Eval| {};
    let vote = |_: Option<Action>, _: Depth| {};
    let table = lmr();
    let v = minimax(&mut board, &mut heur, NodeType::Pv, 0, 3, -INF, INF, &mut killers, &table, &flat, &expired, &tt_get, &tt_put, &put_eval, &vote);
    assert_eq!(v, None);
    let q = qsearch(&mut board, &mut heur, 0, 0, -INF, INF, &mut killers, &flat, &expired, &tt_get, &tt_put, &put_eval, &vote);
    assert_eq!(q, None);
}

#[test]
fn quiescence_stands_pat_on_the_evaluation() {
    let mut board = Board::new();
    let mut heur = heuristics();
    let mut killers = no_killers();
    let expired = |_: bool| false;
    let tt_get = |_: u64| -> Option<TEntry> { None };
    let tt_put = |_: u64, _: Value, _: Value, _: Action, _: Value, _: Eval, _: Depth| {};
    let put_eval = |_: u64, _: Eval| {};
    let vote = |_: Option<Action>, _: Depth| {};
    let seventy = |_: &Board, _: &Vec<Action>| -> Eval { 70 };
    // the evaluation beats beta: the node fails high on it
    let q = qsearch(&mut board, &mut heur, 0, 4, -100, 50, &mut killers, &seventy, &expired, &tt_get, &tt_put, &put_eval, &vote);
    assert_eq!(q, Some(70));
    // at the last ply the evaluation is the value
    let q = qsearch(&mut board, &mut heur, 4, 4, -100, 100, &mut killers, &seventy, &expired, &tt_get, &tt_put, &put_eval, &vote);
    assert_eq!(q, Some(70));
}

#[test]
fn the_root_votes_for_the_move_it_stores() {
    let mut board = Board::new();
    let root_hash = board.zobrist_hash;
    let mut heur = heuristics();
    let mut killers = no_killers();
    let expired = |_: bool| false;
    let tt_get = |_: u64| -> Option<TEntry> { None };
    let stores: RefCell<Vec<(u64, Value, Value, Action, Value, Eval, Depth)>> = RefCell::new(Vec::new());
    let tt_put = |h: u64, a: Value, b: Value, m: Action, v: Value, e: Eval, d: Depth| stores.borrow_mut().push((h, a, b, m, v, e, d));
    let put_eval = |_: u64, _: Eval| {};
    let votes: RefCell<Vec<(Option<Action>, Depth)>> = RefCell::new(Vec::new());
    let vote = |m: Option<Action>, d: Depth| votes.borrow_mut().push((m, d));
    let table = lmr();
    let v = minimax(&mut board, &mut heur, NodeType::Pv, 0, 1, -10, 10, &mut killers, &table, &flat, &expired, &tt_get, &tt_put, &put_eval, &vote);
    assert_eq!(v, Some(0));
    let votes = votes.borrow();
    assert_eq!(votes.len(), 1);
    let (choice, d) = votes[0];
    assert_eq!(d, 1);
    let root: Vec<_> = stores.borrow().iter().filter(|s| s.0 == root_hash && s.6 == 1).cloned().collect();
    assert_eq!(root.len(), 1);
    assert_eq!(root[0], (root_hash, -10, 10, choice.unwrap(), 0, 0, 1));
}
