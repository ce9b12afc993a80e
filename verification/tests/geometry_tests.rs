use bee_search::graph_nn::{
    piece_to_token_idx, token_idx_to_piece, EdgeType, GameGraph, NUM_TOKENS, TOT_QTY,
};
use bee_search::piece::{Color, Piece};
use bee_search::piece_type::{Pct, PieceType};
use bee_search::tile::{
    adjacent, loc_to_tile, tile_add, tile_to_loc, Direction, TileSet, GRID_MASK, GRID_SIZE,
    ROW_SIZE, TILE_ZERO,
};

#[test]
fn test_piece_bitset() {
    let p = Piece::make(Color::White, Pct::Ant, 2);
    assert_eq!(p.is_some(), true);
    assert_eq!(p.color(), Color::White);
    assert_eq!(p.ptype(), Pct::Ant);
    assert_eq!(p.num(), 2);
    let p = Piece::empty();
    assert_eq!(p.is_some(), false);
}

#[test]
fn test_direction() {
    // Reversibility from any position.
    for t in 0..=GRID_MASK {
        assert_eq!(t, tile_add(tile_add(t, Direction::NE), Direction::SW));
        assert_eq!(t, tile_add(tile_add(t, Direction::E), Direction::W));
        assert_eq!(t, tile_add(tile_add(t, Direction::SE), Direction::NW));
    }

    // Two axes traverse the entire space before wrapping.
    let mut t = TILE_ZERO;
    for _ in 1..GRID_SIZE {
        t = tile_add(t, Direction::E);
        assert_ne!(t, TILE_ZERO);
    }
    t = tile_add(t, Direction::E);
    assert_eq!(t, TILE_ZERO);

    t = TILE_ZERO;
    for _ in 1..GRID_SIZE {
        t = tile_add(t, Direction::NW);
        assert_ne!(t, TILE_ZERO);
    }
    t = tile_add(t, Direction::NW);
    assert_eq!(t, TILE_ZERO);

    // One axis only traverses one row.
    t = TILE_ZERO;
    for _ in 1..ROW_SIZE {
        t = tile_add(t, Direction::NE);
        assert_ne!(t, TILE_ZERO);
    }
    t = tile_add(t, Direction::NE);
    assert_eq!(t, TILE_ZERO);
}

#[test]
fn test_hex_loc() {
    let r = (ROW_SIZE / 2) as i8;
    for x in -r..r {
        for y in -r..r {
            let l = (x, y);
            let t = loc_to_tile(l);
            assert_eq!(l, tile_to_loc(t), "{} != {},{}", t, l.0, l.1);
        }
    }
    for i in 0..GRID_SIZE as u16 {
        let t = i;
        let l = tile_to_loc(t);
        assert_eq!(t, loc_to_tile(l), "{} != {},{}", i, l.0, l.1);
    }
}

#[test]
fn adjacent_tiles_follow_the_direction_order() {
    let n = adjacent(TILE_ZERO);
    let dirs = Direction::all();
    for i in 0..6 {
        assert_eq!(n[i], tile_add(TILE_ZERO, dirs[i]));
        assert_eq!(tile_add(n[i], dirs[i].opposite()), TILE_ZERO);
    }
    assert_eq!(tile_add(TILE_ZERO, Direction::E), TILE_ZERO + 1);
    assert_eq!(tile_add(0, Direction::W), 1023);
}

#[test]
fn bit_tile_set_adds_and_removes() {
    let mut s = TileSet::new();
    assert!(!s.get(TILE_ZERO));
    s.set(TILE_ZERO);
    s.set(1023);
    assert!(s.get(TILE_ZERO));
    assert!(s.get(1023));
    assert!(!s.get(TILE_ZERO + 1));
    s.unset(TILE_ZERO);
    assert!(!s.get(TILE_ZERO));
    assert!(s.get(1023));
}

#[test]
fn test_piece_token_mapping() {
    for color in [Color::White, Color::Black] {
        for pct in PieceType::iter_all() {
            let max_num = TOT_QTY[pct.index()];
            for num in 1..=max_num {
                let idx = piece_to_token_idx(color, pct, num);
                assert!(idx < NUM_TOKENS);
                let (c, p, n) = token_idx_to_piece(idx);
                assert_eq!(c, color);
                assert_eq!(p, pct);
                assert_eq!(n, num);
            }
        }
    }
}

#[test]
fn token_indexes_of_known_pieces() {
    assert_eq!(piece_to_token_idx(Color::White, PieceType::Queen, 1), 0);
    assert_eq!(piece_to_token_idx(Color::White, PieceType::Ant, 3), 8);
    assert_eq!(piece_to_token_idx(Color::Black, PieceType::Queen, 1), 14);
    assert_eq!(piece_to_token_idx(Color::Black, PieceType::Pillbug, 1), 27);
    assert_eq!(token_idx_to_piece(10), (Color::White, PieceType::Beetle, 2));
    assert_eq!(token_idx_to_piece(19), (Color::Black, PieceType::Spider, 2));
}

#[test]
fn edge_codes_and_empty_graph() {
    assert_eq!(EdgeType::NoEdge.code(), 0);
    assert_eq!(EdgeType::W.code(), 6);
    assert_eq!(EdgeType::SelfLoop.code(), 9);
    let g = GameGraph::new();
    assert!(g.features.is_empty());
    assert!(g.edges.is_empty());
}
