use bee_search::action::{Action, ActionKind, ActionList};
use bee_search::board::{Board, GameResult};
use bee_search::piece::{Color, Piece};
use bee_search::piece_type::{Pct, PieceType};
use bee_search::tile::{tile_add, Direction, Tile, GRID_SIZE, TILE_ZERO};
use indicatif::ProgressBar;
use rand::Rng;

#[test]
fn test_board_do_undo() {
    let mut board = Board::new();
    let a = TILE_ZERO;
    let b = TILE_ZERO + 1;
    board.do_action(Action::Place(a, PieceType::Queen));
    assert_eq!(board.placeable[Color::White.index()][PieceType::Queen.index()], 0);
    board.do_action(Action::Place(b, PieceType::Queen));
    assert_eq!(board.placeable[Color::Black.index()][PieceType::Queen.index()], 0);
    board.do_action(Action::Move(a, b));
    assert_eq!(board.world[a as usize], Piece::empty());
    assert_eq!(board.world[b as usize], Piece::make(Color::White, PieceType::Queen, 1));
    assert_eq!(board.underworld_at(b)[0], Piece::make(Color::Black, PieceType::Queen, 1));
    board.undo_action();
    assert_eq!(board.world[a as usize], Piece::make(Color::White, PieceType::Queen, 1));
    assert_eq!(board.world[b as usize], Piece::make(Color::Black, PieceType::Queen, 1));
    board.undo_action();
    assert!(board.world[b as usize].is_none());
    assert_eq!(board.placeable[Color::Black.index()][PieceType::Queen.index()], 1);
}

#[test]
fn test_board_result() {
    let mut board = Board::new();
    let a = TILE_ZERO;
    let b = tile_add(tile_add(tile_add(TILE_ZERO, Direction::E), Direction::E), Direction::E);
    board.do_action(Action::Place(a, PieceType::Queen));
    board.do_action(Action::Place(b, PieceType::Queen));
    assert_eq!(board.game_result(), GameResult::InProgress);
    for &d in Direction::all().iter() {
        let pct = Pct::iter_all()
            .into_iter()
            .filter(|&p| board.placeable[0][p.index()] > 0)
            .next()
            .unwrap();
        board.do_action(Action::Place(tile_add(b, d), pct));
        println!("{} {:?} {:?}", board.turn_num, d, pct);
        if board.turn_num == 1 + 6 * 2 {
            assert_eq!(board.game_result(), GameResult::Winner(Color::White));
        } else {
            assert_eq!(board.game_result(), GameResult::InProgress);
        }
        board.do_action(Action::Place(tile_add(a, d), pct));
    }
    assert_eq!(board.game_result(), GameResult::Draw);
    let w3 = tile_add(tile_add(tile_add(a, Direction::W), Direction::W), Direction::W);
    board.do_action(Action::Move(tile_add(b, Direction::E), w3));
    assert_eq!(board.game_result(), GameResult::Winner(Color::Black));
}

fn compare_boards(b1: &mut Board, b2: &mut Board) -> bool {
    for i in 0..2 {
        for tile in b1.occupied_tiles[i].iter() {
            if b1.height(*tile) != b2.height(*tile) {
                return false;
            }
            if b1.underworld_at(*tile) != b2.underworld_at(*tile) {
                return false;
            }
            if b1.world[*tile as usize] != b2.world[*tile as usize] {
                return false;
            }
        }
    }
    true
}

#[test]
fn test_zobrist_hash() {
    let mut b1 = Board::new();
    let mut b2 = Board::new();

    let depth = 50;
    let num_runs = 100;
    let num_tries = 100;
    let mut bar = ProgressBar::new(num_runs);

    let mut rng = rand::rng();

    for _run in 0..num_runs {
        bar.inc(1);
        for _turn in 0..depth {
            if b1.game_result() != GameResult::InProgress {
                break;
            }

            let moves = b1.generate_moves();

            if moves.len() > 0 {
                for _i in 0..num_tries {
                    let m1 = rng.random_range(0..moves.len());
                    let m2 = rng.random_range(0..moves.len());

                    b1.do_action(moves[m1]);
                    b2.do_action(moves[m2]);

                    assert_eq!(compare_boards(&mut b1, &mut b2), b1.zobrist_hash == b2.zobrist_hash);

                    b1.undo_action();
                    b2.undo_action();
                }

                let mov = rng.random_range(0..moves.len());
                b1.do_action(moves[mov]);
                b2.do_action(moves[mov]);
            } else {
                b1.do_action(Action::Pass());
                b2.do_action(Action::Pass());
            }
            assert!(compare_boards(&mut b1, &mut b2));
            assert!(b1.zobrist_hash == b2.zobrist_hash);
        }

        while b1.turn_num > 0 {
            b1.undo_action();
            b2.undo_action();
            assert!(compare_boards(&mut b1, &mut b2));
            assert!(b1.zobrist_hash == b2.zobrist_hash);
        }
    }

    let num_runs2 = 100;
    let depth2 = 200;

    bar = ProgressBar::new(num_runs2);
    for _run in 0..num_runs2 {
        bar.inc(1);
        for _turn in 0..depth2 {
            if b1.game_result() != GameResult::InProgress || b2.game_result() != GameResult::InProgress {
                break;
            }

            let moves1 = b1.generate_moves();
            if moves1.len() > 0 {
                let mov1 = rng.random_range(0..moves1.len());
                b1.do_action(moves1[mov1]);
            } else {
                b1.do_action(Action::Pass());
            }
            let moves2 = b2.generate_moves();
            if moves2.len() > 0 {
                let mov2 = rng.random_range(0..moves2.len());
                b2.do_action(moves2[mov2]);
            } else {
                b2.do_action(Action::Pass());
            }
            assert_eq!(compare_boards(&mut b1, &mut b2), b1.zobrist_hash == b2.zobrist_hash);
        }

        while b1.turn_num > 0 {
            b1.undo_action();
        }
        while b2.turn_num > 0 {
            b2.undo_action();
        }
    }
}

#[test]
fn action_is_four_bytes_and_roundtrips() {
    assert_eq!(std::mem::size_of::<Action>(), 4, "Action must be 4 bytes");
    // Default must remain Pass.
    assert_eq!(Action::default(), Action::Pass());
    assert!(Action::Pass().is_pass());
    // Exhaustive round-trip over the whole encodable space.
    for t in 0..GRID_SIZE as Tile {
        for p in 0..8u8 {
            let pct = PieceType::from_index(p);
            let a = Action::Place(t, pct);
            assert!(a.is_place());
            assert_eq!(a.kind(), ActionKind::Place(t, pct));
        }
        for &f in &[0u16, 1, 511, 1022, 1023] {
            let a = Action::Move(f, t);
            assert!(a.is_move());
            assert_eq!(a.kind(), ActionKind::Move(f, t));
            assert_eq!(a.move_from(), f);
            assert_eq!(a.move_to(), t);
        }
    }
}

#[test]
fn ordering_matches_the_old_enum() {
    let mut packed = Vec::new();
    let mut reference = Vec::new();
    for t in (0..GRID_SIZE as Tile).step_by(37) {
        for p in 0..8u8 {
            packed.push(Action::Place(t, PieceType::from_index(p)));
            reference.push((0u8, t, p as u16));
        }
        for f in (0..GRID_SIZE as Tile).step_by(101) {
            packed.push(Action::Move(f, t));
            reference.push((1u8, f, t));
        }
    }
    packed.push(Action::Pass());
    reference.push((2u8, 0, 0));

    let mut by_packed: Vec<usize> = (0..packed.len()).collect();
    by_packed.sort_by_key(|&i| packed[i]);
    let mut by_reference: Vec<usize> = (0..reference.len()).collect();
    by_reference.sort_by_key(|&i| reference[i]);
    assert_eq!(by_packed, by_reference, "packed Ord diverges from the old enum ordering");
}

#[test]
fn action_list_keeps_pushed_actions_in_order() {
    let mut list = ActionList::new();
    assert!(list.is_empty());
    list.push(Action::Place(TILE_ZERO, PieceType::Ant));
    list.push(Action::Move(TILE_ZERO, TILE_ZERO + 1));
    assert_eq!(list.len(), 2);
    assert_eq!(list.get(0), Action::Place(TILE_ZERO, PieceType::Ant));
    assert_eq!(list.get(1), Action::Move(TILE_ZERO, TILE_ZERO + 1));
    list.clear();
    assert!(list.is_empty());
}
