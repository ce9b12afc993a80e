use bee_search::action::Action;
use bee_search::engine::{mate_in, mated_in, INF};
use bee_search::piece_type::PieceType;
use bee_search::search_rules::{
    child_node_type, killer_count, mate_window, no_killers, remember_killer, research_node_type,
    tt_quiescence, tt_search, widen_window, NodeType, TtProbe,
};
use bee_search::tt::{TEntry, TTFlag};

fn entry(depth: u8, flag: TTFlag, value: i16) -> TEntry {
    TEntry { hash: 0, pv: Action::Pass(), value, eval: None, depth, flag }
}

#[test]
fn child_types() {
    assert_eq!(child_node_type(NodeType::Pv, 0), NodeType::Pv);
    assert_eq!(child_node_type(NodeType::Pv, 3), NodeType::Cut);
    assert_eq!(child_node_type(NodeType::Cut, 0), NodeType::All);
    assert_eq!(child_node_type(NodeType::Cut, 1), NodeType::Cut);
    assert_eq!(child_node_type(NodeType::All, 0), NodeType::Cut);
    assert_eq!(research_node_type(NodeType::Pv), NodeType::Pv);
    assert_eq!(research_node_type(NodeType::All), NodeType::Cut);
    assert_eq!(research_node_type(NodeType::Cut), NodeType::All);
}

#[test]
fn mate_distance_window() {
    assert_eq!(mate_window(3, -INF, INF), (mated_in(3), mate_in(4)));
    assert_eq!(mate_window(3, -10, 20), (-10, 20));
}

#[test]
fn table_entries_narrow_the_window() {
    assert_eq!(tt_search(None, 3, 1, -5, 5), TtProbe::Window(-5, 5));
    // too shallow: ignored
    assert_eq!(tt_search(Some(entry(2, TTFlag::Exact, 7)), 3, 1, -5, 5), TtProbe::Window(-5, 5));
    // exact below the root: returned
    assert_eq!(tt_search(Some(entry(4, TTFlag::Exact, 7)), 3, 1, -5, 5), TtProbe::Cutoff(7));
    // exact at the root: searched
    assert_eq!(tt_search(Some(entry(4, TTFlag::Exact, 7)), 3, 0, -5, 5), TtProbe::Window(-5, 5));
    // a lower bound above beta cuts, returning the raised alpha
    assert_eq!(tt_search(Some(entry(4, TTFlag::LowerBound, 9)), 3, 1, -5, 5), TtProbe::Cutoff(9));
    assert_eq!(tt_search(Some(entry(4, TTFlag::UpperBound, 2)), 3, 1, -5, 5), TtProbe::Window(-5, 2));
    // quiescence: any depth counts, a cut returns the entry's value
    assert_eq!(tt_quiescence(Some(entry(0, TTFlag::LowerBound, 9)), 1, -5, 5), TtProbe::Cutoff(9));
    assert_eq!(tt_quiescence(Some(entry(0, TTFlag::UpperBound, -9)), 1, -5, 5), TtProbe::Cutoff(-9));
    assert_eq!(tt_quiescence(Some(entry(0, TTFlag::LowerBound, 1)), 0, -5, 5), TtProbe::Window(1, 5));
}

#[test]
fn killers_keep_the_most_frequent() {
    let a = Action::Place(1, PieceType::Ant);
    let b = Action::Place(2, PieceType::Ant);
    let c = Action::Place(3, PieceType::Ant);
    let mut k = no_killers();
    remember_killer(&mut k, a);
    assert_eq!(k[0], (a, 1));
    remember_killer(&mut k, a);
    assert_eq!(killer_count(&k, a), 2);
    remember_killer(&mut k, b);
    assert_eq!(k[1], (b, 1));
    remember_killer(&mut k, c);
    // c replaces the killer with the lower count
    assert_eq!(k[1], (c, 1));
    assert_eq!(killer_count(&k, b), 0);
    assert_eq!(killer_count(&k, a), 2);
}

#[test]
fn aspiration_windows_grow() {
    assert_eq!(widen_window(-30, 30, 0, 30, 0), None);
    assert_eq!(widen_window(-30, 30, -40, 30, 0), Some((-60, 30)));
    assert_eq!(widen_window(-30, 30, -100, 30, 1), Some((-101, 30)));
    assert_eq!(widen_window(-30, 30, 40, 30, 2), Some((-30, 150)));
    assert_eq!(widen_window(-30, 30, 40, 30, 20), Some((-30, INF as i64)));
}
