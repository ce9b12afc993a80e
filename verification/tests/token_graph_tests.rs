use bee_search::action::Action;
use bee_search::board::Board;
use bee_search::graph_nn::{TokenGraph, NUM_TOKENS};
use bee_search::piece_type::PieceType;
use bee_search::tile::{tile_add, tile_to_loc, Direction, TILE_ZERO};

#[test]
fn test_token_graph_initial_board() {
    let mut board = Board::new();
    let tg = board.get_token_graph();
    for i in 0..NUM_TOKENS {
        assert_eq!(tg.features[i][0], 0); // all in hand
        assert_eq!(tg.features[i][1], 0);
        assert_eq!(tg.features[i][2], 0);
    }
    for i in 0..NUM_TOKENS {
        for j in 0..NUM_TOKENS {
            assert_eq!(tg.adj[i][j], 0);
        }
    }
}

#[test]
fn test_token_graph_game_moves() {
    let pos = "Base+MLP;InProgress;White[3];wS1;bA1 wS1-;wA1 -wS1;bA2 bA1\\";
    let mut board = Board::parse_game_string(pos).unwrap();
    let tg = board.get_token_graph();

    let mut on_board_count = 0;
    for i in 0..NUM_TOKENS {
        if tg.features[i][0] == 1 {
            on_board_count += 1;
        }
    }
    assert_eq!(on_board_count, 4);

    // Check self loops
    for i in 0..NUM_TOKENS {
        if tg.features[i][0] == 1 {
            assert_eq!(tg.adj[i][i], 9);
        }
    }
}

#[test]
fn new_token_graph_is_empty() {
    let tg = TokenGraph::new();
    assert!(tg.features.iter().all(|r| r.iter().all(|&v| v == 0)));
    assert!(tg.adj.iter().all(|r| r.iter().all(|&v| v == 0)));
    assert_eq!(tg.center, [0, 0, 1]);
}

#[test]
fn token_graph_of_two_queens() {
    let mut board = Board::new();
    board.do_action(Action::Place(TILE_ZERO, PieceType::Queen));
    let east = tile_add(TILE_ZERO, Direction::E);
    board.do_action(Action::Place(east, PieceType::Queen));
    let tg = board.get_token_graph();
    let (y0, x0) = tile_to_loc(TILE_ZERO);
    let (y1, x1) = tile_to_loc(east);
    // The white queen is token 0, the black queen token 14; each can slide
    // two ways.
    assert_eq!(tg.features[0], [1, x0 as i128, y0 as i128, 0, 1, 2, 0, 0]);
    assert_eq!(tg.features[14], [1, x1 as i128, y1 as i128, 0, 1, 2, 0, 0]);
    // Centered on the middle of the queens.
    assert_eq!(tg.center, [x0 as i64 + x1 as i64, y0 as i64 + y1 as i64, 2]);
    // Self loops, then east (code 3) and west (code 6) between the queens.
    assert_eq!(tg.adj[0][0], 9);
    assert_eq!(tg.adj[14][14], 9);
    assert_eq!(tg.adj[0][14], 3);
    assert_eq!(tg.adj[14][0], 6);
    // A white grasshopper in hand can be placed in as many ways as white
    // has placements.
    let places = board.generate_placements_n() as i128;
    assert!(places > 0);
    assert_eq!(tg.features[1], [0, 0, 0, 0, 1, places, 0, 0]);
}

#[test]
fn fast_token_graph_agrees_with_the_full_one() {
    let pos = "Base+MLP;InProgress;White[3];wS1;bA1 wS1-;wA1 -wS1;bA2 bA1\\";
    let mut board = Board::parse_game_string(pos).unwrap();
    let full = board.get_token_graph();
    let moves = board.generate_moves();
    let other = board.other_moves();
    let fast = board.get_token_graph_fast(&moves, &other);
    assert_eq!(full.features, fast.features);
    assert_eq!(full.adj, fast.adj);
    assert_eq!(full.center, fast.center);
}

#[test]
fn placements_count_the_first_moves() {
    let board = Board::new();
    let moves = board.generate_moves();
    assert_eq!(board.generate_placements_n(), moves.len());
}
