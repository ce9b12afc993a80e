use bee_search::action::Action;
use bee_search::board::Board;
use bee_search::book::{book_reply, get_book_move};
use bee_search::csr::{features_to_sparse, CsrHeader};
use bee_search::engine::{display_eval, mate_in, mated_in, most_voted, vote_index, WIN};
use bee_search::eval_mlp::FeatureAccumulator;
use bee_search::mlp_net::{
    mlp_logit, mlp_logit_checked, A_B1, A_B2, A_B3, A_W01, A_W12, A_W23, B_B1, B_B2, B_B3, B_W01, B_W12, B_W23,
    FN, H_B4, H_B5, H_B6, H_W34, H_W45, H_W56,
};
use bee_search::perft::perft;
use bee_search::piece_type::PieceType;
use bee_search::tile::TILE_ZERO;
use bee_search::tt::{check_bits, flag_score, next_power_of_two, TEntry, TTFlag, TTable};

#[test]
fn mate_scores() {
    assert_eq!(mate_in(0), WIN + 99);
    assert_eq!(mate_in(5), WIN + 94);
    assert_eq!(mated_in(5), -(WIN + 94));
    assert!(mate_in(3) > mate_in(4));
}

#[test]
fn displayed_evaluations() {
    assert_eq!(display_eval(0), "+0");
    assert_eq!(display_eval(125), "+125");
    assert_eq!(display_eval(-40), "-40");
    assert_eq!(display_eval(mate_in(3)), "+#3");
    assert_eq!(display_eval(mated_in(4)), "-#4");
    assert_eq!(display_eval(WIN), "+32000");
}

#[test]
fn table_sizes_are_powers_of_two() {
    assert_eq!(next_power_of_two(0), 1);
    assert_eq!(next_power_of_two(1), 1);
    assert_eq!(next_power_of_two(5), 8);
    assert_eq!(next_power_of_two(64), 64);
    assert_eq!(next_power_of_two(65), 128);
}

#[test]
fn table_flags_and_check_bits() {
    assert_eq!(check_bits(0x1234_5678_9abc_def0), 0x1234_5678);
    assert_eq!(flag_score(TTFlag::Null), 0);
    assert_eq!(flag_score(TTFlag::OnlyEval), 1);
    assert_eq!(flag_score(TTFlag::LowerBound), 2);
    assert_eq!(flag_score(TTFlag::UpperBound), 2);
    assert_eq!(flag_score(TTFlag::Exact), 3);
    let e = TEntry::default();
    assert_eq!(e.flag, TTFlag::Null);
    assert_eq!(e.pv, Action::Pass());
}

#[test]
fn stored_results_are_found_again() {
    let mut tt = TTable::new(1 << 16);
    let h: u64 = 0xdead_beef_0000_0042;
    assert!(tt.get(h).is_none());
    let pv = Action::Place(TILE_ZERO, PieceType::Ant);
    tt.put(h, -100, 100, pv, 50, Some(10), 5);
    let e = tt.get(h).unwrap();
    assert_eq!(e.value, 50);
    assert_eq!(e.depth, 5);
    assert_eq!(e.flag, TTFlag::Exact);
    assert_eq!(e.pv, pv);
    assert_eq!(e.eval, Some(10));
    // same slot, other position
    assert!(tt.get(h ^ (1u64 << 40)).is_none());
    // a shallower bound does not replace a deeper exact value
    tt.put(h, -100, 100, Action::Pass(), 200, None, 3);
    assert_eq!(tt.get(h).unwrap().value, 50);
    // a deeper one does, and keeps the known evaluation
    tt.put(h, -100, 100, Action::Pass(), 200, None, 7);
    let e = tt.get(h).unwrap();
    assert_eq!(e.value, 200);
    assert_eq!(e.flag, TTFlag::LowerBound);
    assert_eq!(e.eval, Some(10));
    tt.clear_one(h);
    assert!(tt.get(h).is_none());
}

#[test]
fn evaluations_fill_free_slots() {
    let mut tt = TTable::new(1 << 12);
    let h: u64 = 0x0102_0304_0506_0708;
    tt.put_eval(h, -77);
    let e = tt.get(h).unwrap();
    assert_eq!(e.flag, TTFlag::OnlyEval);
    assert_eq!(e.eval, Some(-77));
    tt.clear();
    assert!(tt.get(h).is_none());
}

#[test]
fn statistics_index_of_moves() {
    let p = Action::Place(3, PieceType::Spider);
    assert_eq!(vote_index(p), 3 * 1032 + 1024 + 2);
    let m = Action::Move(7, 9);
    assert_eq!(vote_index(m), 9 * 1032 + 7);
    assert_eq!(vote_index(Action::Pass()), 1032 * 1024);
}

#[test]
fn perft_counts_from_the_start() {
    let mut board = Board::new();
    assert_eq!(perft(&mut board, 0), 1);
    // the first player may place any bug but the queen
    assert_eq!(perft(&mut board, 1), 7);
    // the second player places any of its 7 bugs next to it, on 6 tiles
    assert_eq!(perft(&mut board, 2), 7 * 6 * 7);
    assert_eq!(board.turn_num, 0);
    assert_eq!(board.game_string(), Board::new().game_string());
}

#[test]
fn opening_book_replies() {
    assert_eq!(book_reply(&[]), Some("wL"));
    let log: Vec<char> = "wL;bL /wL".chars().collect();
    assert_eq!(book_reply(&log), Some("wM wL/"));
    let log: Vec<char> = "wQ".chars().collect();
    assert_eq!(book_reply(&log), None);
    let board = Board::new();
    let m = get_book_move(&board).unwrap();
    assert_eq!(board.action_to_string(m), "wL");
}

#[test]
fn network_of_an_empty_position() {
    let x = vec![0i16; 2 * FN];
    let a = mlp_logit(&x);
    let b = mlp_logit(&x);
    assert_eq!(a, b);
}

#[test]
fn accumulator_records_only_when_enabled() {
    let mut acc = FeatureAccumulator::new();
    acc.record(&[1, 2, 3]);
    acc.set_accumulation(true);
    acc.record(&[4, 5]);
    acc.record(&[6]);
    let got = acc.take_accumulated_features();
    assert_eq!(got, vec![vec![4i16, 5], vec![6i16]]);
    acc.record(&[7]);
    assert!(acc.take_accumulated_features().is_empty());
    acc.set_accumulation(true);
    acc.record(&[8]);
    acc.clear_accumulated_features();
    acc.record(&[9]);
    assert_eq!(acc.take_accumulated_features(), vec![vec![9i16]]);
}

#[test]
fn csr_header_bytes() {
    let h = CsrHeader::new(3, 436, 0x0102_0304_0506_0708);
    assert_eq!(h.magic, *b"BCSR");
    assert_eq!(h.version, 1);
    let bytes = h.to_bytes();
    assert_eq!(
        bytes,
        vec![
            b'B', b'C', b'S', b'R', 1, 0, 0, 0, 3, 0, 0, 0, 0xb4, 0x01, 0, 0, 8, 7, 6, 5, 4, 3, 2, 1
        ]
    );
    assert_eq!(bytes.len(), std::mem::size_of::<CsrHeader>());
}

fn reference_layer<const N: usize>(x: &[i32], w: &[[i8; N]], b: &[i32; N], relu: bool, shift: u32) -> Option<Vec<i32>> {
    let fits = |v: i64| v >= i32::MIN as i64 && v <= i32::MAX as i64;
    let mut out = Vec::new();
    for j in 0..N {
        let mut s = b[j] as i64;
        for i in 0..x.len() {
            let p = w[i][j] as i64 * x[i] as i64;
            if !fits(p) {
                return None;
            }
            s += p;
            if !fits(s) {
                return None;
            }
        }
        let mut v = s as i32;
        if relu && v < 0 {
            v = 0;
        }
        out.push(v >> shift);
    }
    Some(out)
}

fn reference_logit(x: &[i16]) -> Option<i32> {
    let a0: Vec<i32> = x[..FN].iter().map(|&v| v as i32).collect();
    let b0: Vec<i32> = x[FN..].iter().map(|&v| v as i32).collect();
    let a1 = reference_layer(&a0, &A_W01, &A_B1, true, 0)?;
    let a2 = reference_layer(&a1, &A_W12, &A_B2, true, 6)?;
    let a3 = reference_layer(&a2, &A_W23, &A_B3, true, 6)?;
    let b1 = reference_layer(&b0, &B_W01, &B_B1, true, 0)?;
    let b2 = reference_layer(&b1, &B_W12, &B_B2, true, 6)?;
    let b3 = reference_layer(&b2, &B_W23, &B_B3, true, 6)?;
    let cat: Vec<i32> = a3.iter().chain(b3.iter()).copied().collect();
    let h4 = reference_layer(&cat, &H_W34, &H_B4, true, 6)?;
    let h5 = reference_layer(&h4, &H_W45, &H_B5, true, 6)?;
    let h6 = reference_layer(&h5, &H_W56, &H_B6, false, 0)?;
    Some(h6[0])
}

#[test]
fn network_matches_a_plain_computation() {
    let mut inputs: Vec<Vec<i16>> = vec![vec![0i16; 2 * FN], vec![1i16; 2 * FN], vec![i16::MAX; 2 * FN], vec![i16::MIN; 2 * FN]];
    let mut v = vec![0i16; 2 * FN];
    for (i, x) in v.iter_mut().enumerate() {
        *x = ((i as i32 * 37) % 23 - 11) as i16;
    }
    inputs.push(v);
    let mut board = Board::new();
    inputs.push(board.features_slow().to_vec()[..2 * FN].to_vec());
    for x in &inputs {
        let expected = reference_logit(x);
        assert_eq!(mlp_logit_checked(x), expected);
        if let Some(e) = expected {
            assert_eq!(mlp_logit(x), e);
        }
    }
}

#[test]
fn sparse_features_keep_the_nonzero_entries_in_order() {

    let mut f = [0i16; 436];
    f[3] = 5;
    f[100] = -2;
    f[435] = 7;
    let (ix, vs) = features_to_sparse(&f);
    assert_eq!(ix, vec![3u16, 100, 435]);
    assert_eq!(vs, vec![5i16, -2, 7]);
    let (ix, vs) = features_to_sparse(&[0i16; 436]);
    assert!(ix.is_empty() && vs.is_empty());
}

#[test]
fn a_colliding_store_overwrites_the_slot() {
    let mut tt = TTable::new(1 << 12);
    let h: u64 = 0x0000_0001_0000_0005;
    tt.put(h, -100, 100, Action::Pass(), 50, Some(33), 9);
    // another position in the same slot, shallower and without evaluation
    let other = h ^ (1u64 << 40);
    tt.put(other, -100, 100, Action::Pass(), -20, None, 1);
    assert!(tt.get(h).is_none());
    let e = tt.get(other).unwrap();
    assert_eq!(e.value, -20);
    assert_eq!(e.depth, 1);
    assert_eq!(e.eval, None);
}

#[test]
fn a_small_table_stores_a_lower_bound() {
    let mut tt = TTable::new(1024);
    tt.put(5, -10, 10, Action::Pass(), 20, None, 3);
    let e = tt.get(5).unwrap();
    assert_eq!(e.flag, TTFlag::LowerBound);
    assert_eq!(e.value, 20);
    assert_eq!(e.depth, 3);
    assert_eq!(e.pv, Action::Pass());
    assert_eq!(e.eval, None);
    assert_eq!(e.hash, 0);
}

#[test]
fn most_voted_takes_the_first_of_the_most_votes() {
    let moves = vec![Action::Pass(), Action::Move(1, 2), Action::Move(3, 4), Action::Move(5, 6)];
    assert_eq!(most_voted(&moves, &vec![1, 4, 2, 4]), Action::Move(1, 2));
    assert_eq!(most_voted(&moves, &vec![0, 0, 0, 0]), Action::Pass());
    assert_eq!(most_voted(&moves, &vec![0, 0, 0, 9]), Action::Move(5, 6));
    assert_eq!(most_voted(&Vec::new(), &Vec::new()), Action::Pass());
}

#[test]
fn table_slot_is_hash_modulo_slots() {
    let tt = TTable::new(1 << 12);
    let n = (((1usize << 12) / std::mem::size_of::<TEntry>()).next_power_of_two()) as u64;
    for h in [0u64, 1, 7, n - 1, n, n + 3, 0xdead_beef_1234_5678, u64::MAX] {
        assert_eq!(tt.index(h) as u64, h % n);
    }
    assert_eq!(tt.index(5), tt.index(5 + 3 * n));
    assert_ne!(tt.index(5), tt.index(6));
}
