use bee_search::action::Action;
use bee_search::board::{Board, GameResult};
use bee_search::piece::Color;
use bee_search::piece_type::PieceType;
use bee_search::tile::{tile_add, Direction, TILE_ZERO};
use bee_search::uhp::UhpError;

const GAME: &str = "Base+MLP;InProgress;White[3];wS1;bA1 wS1-;wA1 -wS1;bA2 bA1\\";

#[test]
fn test_first_move() {
    let mut board = Board::new();

    board.do_action(Action::Place(TILE_ZERO, PieceType::Ant));
    board.do_action(Action::Place(tile_add(TILE_ZERO, Direction::E), PieceType::Ant));

    for action in board.generate_moves() {
        println!("{:?}", action);
    }
}

#[test]
fn game_strings_read_back() {
    let board = Board::parse_game_string(GAME).unwrap();
    assert_eq!(board.turn_num, 4);
    assert_eq!(board.color(), Color::White);
    assert_eq!(board.game_result(), GameResult::InProgress);
    assert_eq!(
        board.game_string(),
        "Base+MLP;InProgress;\"White\"[3];wS1;bA1 wS1-;wA1 -wS1;bA2 bA1\\"
    );
}

#[test]
fn a_new_game_string() {
    let board = Board::new();
    assert_eq!(board.game_string(), "Base+MLP;NotStarted;\"White\"[1]");
    let base = Board::parse_game_type("Base").unwrap();
    assert_eq!(base.game_string(), "Base;NotStarted;\"White\"[1]");
    let ml = Board::parse_game_type("Base+ML").unwrap();
    assert_eq!(ml.game_string(), "Base+ML;NotStarted;\"White\"[1]");
}

#[test]
fn moves_print_and_parse_back() {
    let board = Board::parse_game_string(GAME).unwrap();
    let mut b = board.clone();
    let moves = b.generate_moves();
    assert!(!moves.is_empty());
    for m in moves {
        let s = board.action_to_string(m);
        let back = board.parse_action(&s).unwrap();
        assert_eq!(back, m, "{}", s);
    }
}

#[test]
fn first_placement_is_at_the_origin() {
    let board = Board::new();
    let a = board.parse_action("wA1").unwrap();
    assert_eq!(a, Action::Place(TILE_ZERO, PieceType::Ant));
    assert_eq!(board.action_to_string(a), "wA1");
    assert_eq!(board.parse_action("pass").unwrap(), Action::Pass());
    assert_eq!(board.action_to_string(Action::Pass()), "pass");
}

#[test]
fn bad_moves_are_refused() {
    let board = Board::parse_game_string(GAME).unwrap();
    assert!(matches!(board.parse_action("xQ"), Err(UhpError::InvalidMove(_))));
    assert!(matches!(board.parse_action("wQ wZ9-"), Err(UhpError::InvalidMove(_))));
    assert!(matches!(board.parse_action("wQ"), Err(UhpError::InvalidMove(_))));
    assert!(matches!(Board::parse_game_type("Chess"), Err(UhpError::InvalidGameType(_))));
    assert!(matches!(
        Board::parse_game_string("Base;InProgress"),
        Err(UhpError::InvalidGameString(_))
    ));
}

#[test]
fn legal_moves_at_the_start() {
    let mut board = Board::new();
    let s = board.legal_moves_string();
    let parts: Vec<&str> = s.split(';').collect();
    assert_eq!(parts.len(), 7);
    assert!(!parts.contains(&"wQ"));
    assert!(parts.contains(&"wA1"));
    assert!(parts.contains(&"wL"));
    assert!(board.is_legal(Action::Place(TILE_ZERO, PieceType::Spider)));
    assert!(!board.is_legal(Action::Place(TILE_ZERO, PieceType::Queen)));
}

#[test]
fn undoing_restores_the_game_string() {
    let mut board = Board::parse_game_string(GAME).unwrap();
    let before = board.game_string();
    let moves = board.generate_moves();
    board.do_action(moves[0]);
    assert_ne!(board.game_string(), before);
    board.undo_action();
    assert_eq!(board.game_string(), before);
}

#[test]
fn a_longer_game_reads_back() {
    let s = "Base+MLP;InProgress;White[9];wP;bA1 wP\\;wQ -wP;bA2 /bA1;wA1 \\wP;bL bA1-;wA2 wP/;bQ bL-;wA1 bQ\\;bA3 bA1\\;wA2 wA1/;bM bA3\\;wM wA2/;bM wQ\\;wP \\bL;bP /bM";
    let board = Board::parse_game_string(s).unwrap();
    assert_eq!(board.turn_num, 16);
    let again = Board::parse_game_string(&board.game_string()).unwrap();
    assert_eq!(again.game_string(), board.game_string());
}

#[test]
fn checks_before_playing_and_writing() {
    let mut board = Board::parse_game_string(GAME).unwrap();
    assert!(board.is_replayable());
    assert!(board.hand_in_range());
    assert!(board.has_few_pieces());
    assert!(board.can_take_back());
    let moves = board.generate_moves();
    for &m in &moves {
        assert!(m.is_wf());
        assert!(board.can_name_action(m));
        assert!(board.can_play(m));
    }
    assert!(!Board::new().can_take_back());
    // a queen cannot be placed twice
    board.do_action(Action::Place(tile_add(TILE_ZERO, Direction::W), PieceType::Queen));
    board.do_action(Action::Pass());
    assert!(!board.can_play(Action::Place(tile_add(TILE_ZERO, Direction::NW), PieceType::Queen)));
}

#[test]
fn the_same_position_by_two_move_orders_has_the_same_hash() {
    let mut b1 = Board::new();
    let mut b2 = Board::new();
    let e = tile_add(TILE_ZERO, Direction::E);
    let w = tile_add(TILE_ZERO, Direction::W);
    let ee = tile_add(e, Direction::E);
    let ww = tile_add(w, Direction::W);
    b1.do_action(Action::Place(TILE_ZERO, PieceType::Ant));
    b1.do_action(Action::Place(e, PieceType::Ant));
    b1.do_action(Action::Place(w, PieceType::Spider));
    b1.do_action(Action::Place(ee, PieceType::Spider));
    b1.do_action(Action::Place(ww, PieceType::Beetle));
    b2.do_action(Action::Place(TILE_ZERO, PieceType::Ant));
    b2.do_action(Action::Place(e, PieceType::Ant));
    b2.do_action(Action::Place(ww, PieceType::Beetle));
    b2.do_action(Action::Place(ee, PieceType::Spider));
    assert!(b1.zobrist_hash != b2.zobrist_hash);
    b2.undo_action();
    b2.undo_action();
    b2.do_action(Action::Place(w, PieceType::Spider));
    b2.do_action(Action::Place(ee, PieceType::Spider));
    b2.do_action(Action::Place(ww, PieceType::Beetle));
    assert_eq!(b1.zobrist_hash, b2.zobrist_hash);
}

#[test]
fn hand_written_evaluation() {
    let mut board = Board::new();
    assert_eq!(board.queen_score(), 5);
    assert_eq!(board.score(7), 5007);
    // the second player places any of 7 bugs on any of the 6 tiles around
    assert_eq!(board.other_n_moves(), 42);
    assert_eq!(board.static_eval(), 5007 - 5042);
    board.do_action(Action::Place(TILE_ZERO, PieceType::Queen));
    board.do_action(Action::Place(tile_add(TILE_ZERO, Direction::E), PieceType::Queen));
    // white queen with five free tiles around it
    assert_eq!(board.queen_score(), 5);
    let moves = board.generate_moves();
    let e = board.static_eval_fast(&moves);
    assert_eq!(e, board.static_eval());
    assert_eq!(board.turn_num, 2);
}
