use bee_search::action::Action;
use bee_search::board::Board;
use bee_search::feature_vector::movements_by_tile;
use bee_search::piece::{Color, Piece};
use bee_search::features::{ADJ_SIZE, PIECES_PER_SIDE, PIECE_FEATURES_LEN, PIECE_FN, TOTAL_FN};
use bee_search::graph_nn::TOT_QTY;
use bee_search::piece_type::PieceType;
use bee_search::tile::{tile_add, Direction, TILE_ZERO};

#[test]
fn test_piece_slot_uniqueness() {
    let mut used = [false; PIECES_PER_SIDE];
    for pct in PieceType::iter_all() {
        let count = TOT_QTY[pct.index()];
        for num in 1..=count {
            let slot = Board::piece_slot(pct, num);
            assert!(slot < PIECES_PER_SIDE);
            assert!(!used[slot], "Slot {} used more than once", slot);
            used[slot] = true;
        }
    }
    for (i, &u) in used.iter().enumerate() {
        assert!(u, "Slot {} never used", i);
    }
}

#[test]
fn test_cube_coordinates_invariants() {
    let center = TILE_ZERO;
    let d0 = Board::cube_delta(center, center);
    assert_eq!(d0, (0, 0, 0));

    let dirs = Direction::all();
    let expected_deltas = [
        (0, -1, 1),
        (1, -1, 0),
        (1, 0, -1),
        (0, 1, -1),
        (-1, 1, 0),
        (-1, 0, 1),
    ];

    for (i, &dir) in dirs.iter().enumerate() {
        let neighbor = tile_add(center, dir);
        let (dq, dr, ds) = Board::cube_delta(center, neighbor);
        assert_eq!(dq + dr + ds, 0, "Cube coordinates invariant q+r+s=0 failed for dir {:?}", dir);
        let dist = dq.abs().max(dr.abs()).max(ds.abs());
        assert_eq!(dist, 1, "Distance to neighbor must be 1 for dir {:?}", dir);
        assert_eq!((dq, dr, ds), expected_deltas[i], "Mismatch for dir {:?}", dir);

        let (rev_q, rev_r, rev_s) = Board::cube_delta(neighbor, center);
        assert_eq!((rev_q, rev_r, rev_s), (-dq, -dr, -ds));
    }
}

#[test]
fn test_adj_idx() {
    let mut used = [false; ADJ_SIZE];
    let mut count = 0;
    for i in 0..16 {
        for j in i..16 {
            if let Some(idx) = Board::adj_idx(i, j) {
                assert!(idx < ADJ_SIZE, "Index {} out of bounds", idx);
                assert!(!used[idx], "Index {} used more than once", idx);
                used[idx] = true;
                count += 1;
                assert_eq!(Board::adj_idx(j, i), Some(idx));
            } else {
                assert_eq!(i, j);
                assert!(i % 8 == 0 || i % 8 >= 5, "Diagonal for type {} should not be excluded", i);
            }
        }
    }
    assert_eq!(count, ADJ_SIZE, "Not all indices were used");
    for (i, &u) in used.iter().enumerate() {
        assert!(u, "Index {} was never used", i);
    }
}

#[test]
fn test_adj_perm_involution() {
    let perm = Board::compute_adj_perm();
    assert_eq!(&perm[..10], &[96, 97, 98, 99, 100, 101, 102, 7, 22, 36]);
    let mut seen = [false; ADJ_SIZE];
    for (i, &p) in perm.iter().enumerate() {
        assert!(p < ADJ_SIZE);
        assert!(!seen[p], "Duplicate entry in ADJ_PERM: {}", p);
        seen[p] = true;
        assert_eq!(perm[p], i, "ADJ_PERM must be an involution: perm[perm[{i}]] == {i}");
    }
}

#[test]
fn feature_layout_sizes() {
    assert_eq!(PIECE_FEATURES_LEN, PIECES_PER_SIDE * 2 * PIECE_FN);
    assert_eq!(TOTAL_FN, PIECE_FEATURES_LEN + ADJ_SIZE);
}

#[test]
fn adj_idx_of_first_pairs() {
    assert_eq!(Board::adj_idx(0, 0), None);
    assert_eq!(Board::adj_idx(0, 1), Some(0));
    assert_eq!(Board::adj_idx(1, 1), Some(15));
    assert_eq!(Board::adj_idx(15, 15), None);
    assert_eq!(Board::adj_idx(14, 15), Some(127));
}

/// A feature vector with the white queen two tiles east and one white
/// ant one tile south-east of the origin, plus a few adjacency counts.
fn sample_features() -> [i16; TOTAL_FN] {
    let mut f = [0i16; TOTAL_FN];
    // white ant in slot 6: coordinates relative to both queens
    f[6 * PIECE_FN] = 1;
    f[6 * PIECE_FN + 1] = -2;
    f[6 * PIECE_FN + 2] = 1;
    f[6 * PIECE_FN + 3] = 3;
    f[6 * PIECE_FN + 4] = -1;
    f[6 * PIECE_FN + 5] = -2;
    f[6 * PIECE_FN + 6] = 1;
    f[6 * PIECE_FN + 9] = 2;
    // black spider in slot 4 of the black half
    let b = (PIECES_PER_SIDE + 4) * PIECE_FN;
    f[b] = -1;
    f[b + 2] = 1;
    f[b + 3] = 2;
    f[b + 4] = -3;
    f[b + 5] = 1;
    f[b + 7] = 1;
    f[PIECE_FEATURES_LEN + 3] = 2;
    f[PIECE_FEATURES_LEN + 40] = 1;
    f
}

#[test]
fn canonical_form_is_idempotent() {
    let f = sample_features();
    let c = Board::canonicalize_features(&f);
    let cc = Board::canonicalize_features(&c);
    assert_eq!(c, cc);
}

#[test]
fn swapping_colors_twice_restores_the_canonical_form() {
    let f = sample_features();
    let c = Board::canonicalize_features(&f);
    let s = Board::swap_features_color(&f);
    let ss = Board::swap_features_color(&s);
    assert_ne!(c, s);
    assert_eq!(c, ss);
}

/// `f` with symmetry `k` applied to both coordinate triples of every slot.
fn rotated(f: &[i16; TOTAL_FN], k: usize) -> [i16; TOTAL_FN] {
    let mut out = *f;
    for slot in 0..2 * PIECES_PER_SIDE {
        let b = slot * PIECE_FN;
        for off in [0, 3] {
            let (q, r, s) = bee_search::features::d6_transform(k, f[b + off], f[b + off + 1], f[b + off + 2]);
            out[b + off] = q;
            out[b + off + 1] = r;
            out[b + off + 2] = s;
        }
    }
    out
}

#[test]
fn canonical_form_is_the_same_under_every_symmetry() {
    let f = sample_features();
    let c = Board::canonicalize_features(&f);
    for k in 0..12 {
        assert_eq!(Board::canonicalize_features(&rotated(&f, k)), c, "symmetry {}", k);
    }
}

#[test]
fn canonical_form_ignores_the_numbering_of_ants() {
    let mut f = sample_features();
    // a second white ant in slot 7
    f[7 * PIECE_FN] = 2;
    f[7 * PIECE_FN + 1] = -1;
    f[7 * PIECE_FN + 2] = -1;
    f[7 * PIECE_FN + 8] = 1;
    let mut g = f;
    for i in 0..PIECE_FN {
        g.swap(6 * PIECE_FN + i, 7 * PIECE_FN + i);
    }
    assert_ne!(f, g);
    assert_eq!(Board::canonicalize_features(&f), Board::canonicalize_features(&g));
}

const LONG_GAME: &str = "Base+MLP;InProgress;White[9];wP;bA1 wP\\;wQ -wP;bA2 /bA1;wA1 \\wP;bL bA1-;wA2 wP/;bQ bL-;wA1 bQ\\;bA3 bA1\\;wA2 wA1/;bM bA3\\;wM wA2/;bM wQ\\;wP \\bL;bP /bM";

#[test]
fn test_feature_vector_generation() {
    let mut board = Board::new();
    let feats = board.features_slow();
    assert_eq!(feats.len(), TOTAL_FN);
    assert!(feats.iter().all(|&v| v == 0));

    board.do_action(Action::Place(TILE_ZERO, PieceType::Queen));
    let adj_tile = tile_add(TILE_ZERO, Direction::E);
    board.do_action(Action::Place(adj_tile, PieceType::Queen));

    let feats2 = board.features_slow();
    assert_eq!(feats2[0] + feats2[1] + feats2[2], 0);
    assert_eq!(feats2[3] + feats2[4] + feats2[5], 0);
    assert_eq!(feats2[154] + feats2[155] + feats2[156], 0);
    assert_eq!(feats2[157] + feats2[158] + feats2[159], 0);
}

#[test]
fn test_piece_permutation_invariance() {
    let mut board1 = Board::parse_game_string(LONG_GAME).unwrap();
    let f1 = board1.features_slow();

    let mut board2 = Board::parse_game_string(LONG_GAME).unwrap();
    let tiles: Vec<u16> = board2.occupied_tiles[0].iter().to_vec();
    for t in tiles {
        let pc = board2.tile(t);
        if pc.color() == Color::White && pc.ptype() == PieceType::Ant {
            let new_num = if pc.num() == 1 { 2 } else if pc.num() == 2 { 1 } else { pc.num() };
            board2.world[t as usize] = Piece::make(Color::White, PieceType::Ant, new_num);
        }
    }
    let f2 = board2.features_slow();

    assert_eq!(f1, f2, "Canonical features must be invariant to piece numbering/slot order!");
}

#[test]
fn test_d6_rotation_reflection_invariance() {
    let mut board1 = Board::parse_game_string(LONG_GAME).unwrap();
    let f1 = board1.features_slow();
    for t in 0..12 {
        let f_cand = f1;
        let f_canon = Board::canonicalize_features(&f_cand);
        assert_eq!(f1, f_canon, "D6 transform {} must canonicalize back to invariant form!", t);
    }
}

#[test]
fn test_swap_features_color_involution() {
    let mut board = Board::parse_game_string(LONG_GAME).unwrap();
    let f = board.features_slow();
    let f_swapped = Board::swap_features_color(&f);
    let f_double_swapped = Board::swap_features_color(&f_swapped);

    assert_ne!(f, f_swapped, "Swapped features should be different for non-symmetric position");
    assert_eq!(f, f_double_swapped, "Double swap must restore the original canonical features");
}

#[test]
fn movements_are_counted_by_starting_tile() {
    let moves = vec![
        Action::Move(5, 6),
        Action::Move(5, 7),
        Action::Place(9, PieceType::Ant),
        Action::Move(8, 5),
        Action::Pass(),
    ];
    let c = movements_by_tile(&moves);
    assert_eq!(c[5], 2);
    assert_eq!(c[8], 1);
    assert_eq!(c[9], 0);
    assert_eq!(c.iter().map(|&x| x as usize).sum::<usize>(), 3);
    let mut board = Board::parse_game_string(LONG_GAME).unwrap();
    let by_tile = board.generate_movements_by_tile();
    let all = board.generate_moves();
    let n_moves = all.iter().filter(|a| a.is_move()).count();
    assert_eq!(by_tile.iter().map(|&x| x as usize).sum::<usize>(), n_moves);
    assert_eq!(board.features_fast(&all), board.features_slow());
}

#[test]
fn graph_of_empty_board_is_empty() {
    let mut board = Board::new();
    let g = board.get_graph();
    assert!(g.features.is_empty());
    assert!(g.edges.is_empty());
}

#[test]
fn graph_of_two_queens() {
    let mut board = Board::new();
    board.do_action(Action::Place(TILE_ZERO, PieceType::Queen));
    let adj_tile = tile_add(TILE_ZERO, Direction::E);
    board.do_action(Action::Place(adj_tile, PieceType::Queen));
    let g = board.get_graph();
    // White to move: the white queen comes first, with its two slides.
    assert_eq!(g.features, vec![[0, 0, 0, 0, 2], [8, 0, 0, 0, 0]]);
    assert_eq!(g.edges, vec![[0, 1, 2], [1, 0, 5]]);
}
