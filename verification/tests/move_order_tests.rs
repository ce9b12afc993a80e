use bee_search::action::Action;
use bee_search::board::Board;
use bee_search::engine::{hist_index, last_move_index};
use bee_search::move_order::{order_moves, sort_moves, update_heuristics, MoveInfo};
use bee_search::piece::Color;
use bee_search::piece_type::{PieceType, PCT_COUNT};
use bee_search::search_rules::no_killers;
use bee_search::tile::{GRID_SIZE, TILE_ZERO};

const TABLE: usize = 2 * (GRID_SIZE + PCT_COUNT) * GRID_SIZE + 1;

fn place(k: u16) -> Action {
    Action::Place(TILE_ZERO + k, PieceType::Ant)
}

fn info(k: u16, quiet: bool, killer: u8, hist: i64) -> MoveInfo {
    MoveInfo { mv: place(k), quiet, killer, hist }
}

#[test]
fn ordering_follows_pv_noise_killers_history_countermove() {
    let infos = vec![
        info(0, true, 0, 5),
        info(1, false, 0, 0),
        info(2, true, 2, 0),
        info(3, true, 0, 5),
        info(4, true, 0, 9),
        info(5, true, 0, 0),
    ];
    let r = sort_moves(infos, place(5), place(3));
    let order: Vec<Action> = r.iter().map(|m| m.mv).collect();
    assert_eq!(order, vec![place(5), place(1), place(2), place(4), place(3), place(0)]);
}

#[test]
fn ordering_keeps_ties_in_place() {
    let infos = vec![info(7, true, 1, 3), info(2, true, 1, 3), info(9, true, 1, 3), info(4, false, 0, 0)];
    let r = sort_moves(infos, Action::Pass(), Action::Pass());
    let order: Vec<Action> = r.iter().map(|m| m.mv).collect();
    assert_eq!(order, vec![place(4), place(7), place(2), place(9)]);
}

#[test]
fn ordering_reads_history_and_killers() {
    let board = Board::new();
    let moves = board.generate_moves();
    assert!(moves.len() > 2);
    let mut history = vec![0i64; TABLE];
    let countermove = vec![Action::Pass(); TABLE];
    let favourite = moves[moves.len() - 1];
    history[hist_index(Color::White, favourite)] = 100;
    let mut killers = no_killers();
    killers[0] = (moves[1], 3);
    let r = order_moves(&board, moves.clone(), &history, &countermove, None, &killers);
    assert_eq!(r.len(), moves.len());
    assert_eq!(r[0].mv, moves[1]);
    assert_eq!(r[0].killer, 3);
    assert_eq!(r[1].mv, favourite);
    assert_eq!(r[1].hist, 100);
    let r2 = order_moves(&board, moves.clone(), &history, &countermove, Some(moves[0]), &killers);
    assert_eq!(r2[0].mv, moves[0]);
}

#[test]
fn a_quiet_cut_rewards_the_move_and_penalizes_earlier_quiet_ones() {
    let board = Board::new();
    let mut history = vec![0i64; TABLE];
    let mut countermove = vec![Action::Pass(); TABLE];
    let mut killers = no_killers();
    let cut = info(2, true, 0, 0);
    let moves = vec![info(0, true, 0, 0), info(1, false, 0, 0), cut, info(3, true, 0, 0)];
    update_heuristics(&board, &mut history, &mut countermove, 4, 10, 10, &mut killers, None, cut, &moves, 3);
    assert_eq!(history[hist_index(Color::White, place(2))], 16);
    assert_eq!(history[hist_index(Color::White, place(0))], -8);
    assert_eq!(history[hist_index(Color::White, place(1))], 0);
    assert_eq!(history[hist_index(Color::White, place(3))], 0);
    assert_eq!(killers[0], (place(2), 1));
    assert_eq!(killers[1], (Action::Pass(), 0));
    assert_eq!(countermove[last_move_index(&board)], place(2));
}

#[test]
fn no_lesson_without_a_cut() {
    let board = Board::new();
    let mut history = vec![0i64; TABLE];
    let mut countermove = vec![Action::Pass(); TABLE];
    let mut killers = no_killers();
    let cut = info(2, true, 0, 0);
    let moves = vec![info(0, true, 0, 0), cut];
    update_heuristics(&board, &mut history, &mut countermove, 4, 5, 10, &mut killers, None, cut, &moves, 2);
    assert!(history.iter().all(|&h| h == 0));
    assert_eq!(killers, no_killers());
    // The principal variation move teaches nothing either.
    update_heuristics(&board, &mut history, &mut countermove, 4, 10, 10, &mut killers, Some(place(2)), cut, &moves, 2);
    assert!(history.iter().all(|&h| h == 0));
    assert!(countermove.iter().all(|&m| m == Action::Pass()));
}
