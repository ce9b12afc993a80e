use bee_search::piece::Color;
use bee_search::positions::{
    game_from, game_positions, interleave_unique, merge_scores, positions_from_games, positions_from_results, shuffled_order,
    ParsedGame, PositionScore,
};

fn game(winner: Option<Color>, moves: &[&str]) -> ParsedGame {
    ParsedGame {
        winner,
        gametype: "Base+MLP".to_string(),
        moves: moves.iter().map(|m| m.to_string()).collect(),
    }
}

const P1: &str = "Base+MLP;InProgress;\"Black\"[1];wS1";
const P2: &str = "Base+MLP;InProgress;\"White\"[2];wS1;bA1 wS1-";
const P3: &str = "Base+MLP;InProgress;\"Black\"[2];wS1;bA1 wS1-;wA1 -wS1";

#[test]
fn a_game_records_each_position_with_the_result_of_the_side_to_move() {
    let g = game(Some(Color::White), &["wS1", "bA1 wS1-", "wA1 -wS1"]);
    let r = game_positions(&g);
    assert_eq!(r, vec![(P1.to_string(), 0), (P2.to_string(), 2), (P3.to_string(), 0)]);
}

#[test]
fn a_replay_stops_at_a_move_that_does_not_read() {
    let g = game(None, &["wS1", "bA1 wS1-", "xx", "wA1 -wS1"]);
    assert_eq!(game_positions(&g), vec![(P1.to_string(), 1), (P2.to_string(), 1)]);
}

#[test]
fn a_game_type_that_does_not_read_records_nothing() {
    let g = ParsedGame { winner: None, gametype: "Chess".to_string(), moves: vec!["wS1".to_string()] };
    assert_eq!(game_positions(&g), Vec::new());
}

#[test]
fn positions_are_counted_once_with_their_totals() {
    let games = vec![
        game(Some(Color::White), &["wS1", "bA1 wS1-", "wA1 -wS1"]),
        game(None, &["wS1", "bA1 wS1-", "xx"]),
    ];
    let r = positions_from_games(&games, &vec![0, 1]);
    let v: Vec<(String, u64, u64)> = r.iter().map(|p| (p.position.clone(), p.half_points, p.count)).collect();
    assert_eq!(v, vec![(P1.to_string(), 1, 2), (P2.to_string(), 3, 2), (P3.to_string(), 0, 1)]);
    let again = positions_from_games(&games, &vec![1, 1]);
    let v: Vec<(String, u64, u64)> = again.iter().map(|p| (p.position.clone(), p.half_points, p.count)).collect();
    assert_eq!(v, vec![(P1.to_string(), 2, 2), (P2.to_string(), 2, 2)]);
}

#[test]
fn shuffled_orders_are_cut_to_the_cap() {
    let mut all = shuffled_order(6, 0);
    all.sort();
    assert_eq!(all, vec![0, 1, 2, 3, 4, 5]);
    let some = shuffled_order(10, 3);
    assert_eq!(some.len(), 3);
    assert!(some.iter().all(|&i| i < 10));
    assert!(some[0] != some[1] && some[1] != some[2] && some[0] != some[2]);
    assert_eq!(shuffled_order(2, 5).len(), 2);
}

#[test]
fn results_give_every_position_of_the_games_kept() {
    let games = vec![game(Some(Color::Black), &["wS1", "bA1 wS1-"])];
    let r = positions_from_results(&games, 0);
    let v: Vec<(String, u64, u64)> = r.iter().map(|p| (p.position.clone(), p.half_points, p.count)).collect();
    assert_eq!(v, vec![(P1.to_string(), 2, 1), (P2.to_string(), 0, 1)]);
}

#[test]
fn groups_are_taken_in_turn_each_position_once() {
    let g = |v: &[&str]| v.iter().map(|s| s.to_string()).collect::<Vec<String>>();
    let groups = vec![g(&["a", "b", "c"]), g(&["b", "d"]), g(&[])];
    assert_eq!(interleave_unique(&groups, 10), g(&["a", "b", "c", "d"]));
    assert_eq!(interleave_unique(&groups, 1), g(&["a", "b"]));
    assert_eq!(interleave_unique(&Vec::new(), 3), Vec::<String>::new());
}

#[test]
fn result_lines_read_as_games() {
    let g = game_from("Base+MLP;WhiteWins;Black[3];wS1;bA1 wS1-", "WHITE wins").unwrap();
    assert_eq!(g.winner, Some(Color::White));
    assert_eq!(g.gametype, "Base+MLP");
    assert_eq!(g.moves, vec!["wS1".to_string(), "bA1 wS1-".to_string()]);
    assert_eq!(game_from("Base+MLP;Draw;White[3];wS1", "draw").unwrap().winner, None);
    assert_eq!(game_from("Base+MLP;BlackWins;White[3];wS1", "Black").unwrap().winner, Some(Color::Black));
    assert!(game_from("Base;Draw;White[3];wS1", "draw").is_none());
    assert!(game_from("Base+MLP;Draw;White[3]", "draw").is_none());
    assert!(game_from("Base+MLP;Draw;White[3];wS1", "unknown").is_none());
}

#[test]
fn totals_of_several_files_add_up() {
    let ps = |v: &[(&str, u64, u64)]| {
        v.iter()
            .map(|&(p, h, c)| PositionScore { position: p.to_string(), half_points: h, count: c })
            .collect::<Vec<PositionScore>>()
    };
    let mut acc = ps(&[("a", 2, 1), ("b", 1, 2)]);
    merge_scores(&mut acc, &ps(&[("b", 3, 2), ("c", 0, 1), ("a", 1, 1)]));
    let v: Vec<(String, u64, u64)> = acc.iter().map(|p| (p.position.clone(), p.half_points, p.count)).collect();
    assert_eq!(v, vec![("a".to_string(), 3, 2), ("b".to_string(), 4, 4), ("c".to_string(), 0, 1)]);
}
