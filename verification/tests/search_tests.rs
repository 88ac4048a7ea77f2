use engine::board::Board;
use engine::search::search_position;
use engine::tt::{TTFlag, TranspositionTable};
use engine::types::Move;

#[test]
fn search_finds_back_rank_mate() {
    let board = Board::from_fen("6k1/5ppp/8/8/8/8/8/R5K1 w - - 0 1").unwrap();
    let mut tt = TranspositionTable::new(1);
    let (best, score) = search_position(&board, 2, &mut tt);
    assert_eq!(best, Some(Move { source: 0, target: 56, promotion: None }));
    assert_eq!(score, 48_901);
}

#[test]
fn search_without_moves() {
    let mated = Board::from_fen("rnb1kbnr/pppp1ppp/8/4p3/6Pq/5P2/PPPPP2P/RNBQKBNR w KQkq - 1 3").unwrap();
    let mut tt = TranspositionTable::new(1);
    assert_eq!(search_position(&mated, 2, &mut tt), (None, -50_000));
}

#[test]
fn search_takes_hanging_queen() {
    let board = Board::from_fen("4k3/8/8/3q4/8/8/8/3RK3 w - - 0 1").unwrap();
    let mut tt = TranspositionTable::new(1);
    let (best, score) = search_position(&board, 2, &mut tt);
    assert_eq!(best, Some(Move { source: 3, target: 35, promotion: None }));
    assert!(score > 0);
}

#[test]
fn search_start_position_returns_a_legal_move() {
    let board = Board::new();
    let mut tt = TranspositionTable::new(1);
    let (best, score) = search_position(&board, 3, &mut tt);
    let mv = best.unwrap();
    assert!(mv.source >= 1 && mv.source < 16);
    assert!(score.abs() < 1000);
}

#[test]
fn transposition_table_read_after_write() {
    let mut tt = TranspositionTable::new(1);
    assert_eq!(tt.read(42, 3, -100, 100), None);
    tt.write(42, 5, 77, TTFlag::Exact, None);
    assert_eq!(tt.read(42, 3, -100, 100), Some(77));
    assert_eq!(tt.read(42, 5, -100, 100), Some(77));
    // A deeper probe, or another key, is not answered.
    assert_eq!(tt.read(42, 6, -100, 100), None);
    assert_eq!(tt.read(43, 3, -100, 100), None);
    tt.clear();
    assert_eq!(tt.read(42, 3, -100, 100), None);
}

#[test]
fn transposition_table_bounds_and_mate_scores() {
    let mut tt = TranspositionTable::new(1);
    tt.write(7, 4, 300, TTFlag::LowerBound, None);
    assert_eq!(tt.read(7, 4, 0, 200), Some(300));
    assert_eq!(tt.read(7, 4, 0, 400), None);
    tt.write(7, 4, -300, TTFlag::UpperBound, None);
    assert_eq!(tt.read(7, 4, -200, 0), Some(-300));
    assert_eq!(tt.read(7, 4, -400, 0), None);
    // Mate scores are never stored.
    tt.write(9, 4, 48_901, TTFlag::Exact, None);
    assert_eq!(tt.read(9, 1, -50_000, 50_000), None);
}

#[test]
fn one_ply_search_scores_the_best_quiescence_value() {
    let board = Board::from_fen("4k3/8/8/3q4/8/8/8/3RK3 w - - 0 1").unwrap();
    let mut tt = TranspositionTable::new(1);
    assert_eq!(search_position(&board, 1, &mut tt), (Some(Move { source: 3, target: 35, promotion: None }), 500));
    // The table is left empty by a one-ply search.
    assert_eq!(tt.read(0, 0, -50_000, 50_000), None);
}
