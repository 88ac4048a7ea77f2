use engine::add;
use engine::board::Board;
use engine::eval::{evaluate, get_piece_value};
use engine::types::{Color, Move, MoveList, PieceType};

const START_FEN: &str = "rnbqkbnr/pppppppp/8/8/8/8/PPPPPPPP/RNBQKBNR w KQkq - 0 1";

fn mv(source: u8, target: u8) -> Move {
    Move { source, target, promotion: None }
}

#[test]
fn it_works() {
    let result = add(2, 2);
    assert_eq!(result, 4);
}

#[test]
fn new_board_is_start_position() {
    let board = Board::new();
    assert_eq!(board.white_pawns, 0x0000_0000_0000_FF00);
    assert_eq!(board.black_pawns, 0x00FF_0000_0000_0000);
    assert_eq!(board.white_king, 1u64 << 4);
    assert_eq!(board.black_king, 1u64 << 60);
    assert_eq!(board.white_occupancy, 0xFFFF);
    assert_eq!(board.black_occupancy, 0xFFFF_0000_0000_0000);
    assert_eq!(board.all_occupancy, 0xFFFF_0000_0000_FFFF);
    assert_eq!(board.active_color, Color::White);
    assert_eq!(board.castling_rights, 0b1111);
    assert_eq!(board.en_passant_target, 0);
    assert_eq!(board.half_move_clock, 0);
    assert_eq!(board.full_move_number, 1);
}

#[test]
fn empty_board_has_no_pieces() {
    let board = Board::empty();
    assert_eq!(board.all_occupancy, 0);
    assert_eq!(board.white_king, 0);
    assert_eq!(board.castling_rights, 0);
    assert_eq!(board.full_move_number, 1);
    assert_eq!(board.active_color, Color::White);
}

#[test]
fn reset_restores_start_position() {
    let mut board = Board::empty();
    board.reset();
    assert_eq!(board, Board::new());
    assert_eq!(Board::default(), Board::new());
}

#[test]
fn piece_type_at_start() {
    let board = Board::new();
    assert_eq!(board.piece_type_at(0, Color::White), Some(PieceType::Rook));
    assert_eq!(board.piece_type_at(1, Color::White), Some(PieceType::Knight));
    assert_eq!(board.piece_type_at(3, Color::White), Some(PieceType::Queen));
    assert_eq!(board.piece_type_at(4, Color::White), Some(PieceType::King));
    assert_eq!(board.piece_type_at(12, Color::White), Some(PieceType::Pawn));
    assert_eq!(board.piece_type_at(58, Color::Black), Some(PieceType::Bishop));
    assert_eq!(board.piece_type_at(4, Color::Black), None);
    assert_eq!(board.piece_type_at(27, Color::White), None);
}

#[test]
fn square_attacked_at_start() {
    let board = Board::new();
    // e3 and f3 are covered by White pawns and pieces, e6 by Black.
    assert!(board.is_square_attacked(20, Color::White));
    assert!(board.is_square_attacked(21, Color::White));
    assert!(board.is_square_attacked(44, Color::Black));
    // Nobody attacks e4 or e5 at the start.
    assert!(!board.is_square_attacked(28, Color::White));
    assert!(!board.is_square_attacked(36, Color::Black));
    // The knight on b1 covers a3.
    assert!(board.is_square_attacked(16, Color::White));
}

#[test]
fn square_attacked_by_sliders() {
    let board = Board::from_fen("4k3/8/8/8/3r4/8/8/4K3 w - - 0 1").unwrap();
    // The rook on d4 attacks along the d-file and the fourth rank.
    assert!(board.is_square_attacked(3, Color::Black));
    assert!(board.is_square_attacked(31, Color::Black));
    assert!(!board.is_square_attacked(20, Color::Black));
    let blocked = Board::from_fen("4k3/8/8/8/3r4/3P4/8/3K4 w - - 0 1").unwrap();
    assert!(!blocked.is_square_attacked(3, Color::Black));
    assert!(blocked.is_square_attacked(19, Color::Black));
}

#[test]
fn legality_checks() {
    assert!(Board::new().is_legal());
    assert!(!Board::empty().is_legal());
    // Two white kings.
    let two_kings = Board::from_fen("4k3/8/8/8/8/8/8/K3K3 w - - 0 1").unwrap();
    assert!(!two_kings.is_legal());
    // A pawn on the first rank.
    let back_pawn = Board::from_fen("4k3/8/8/8/8/8/8/P3K3 w - - 0 1").unwrap();
    assert!(!back_pawn.is_legal());
    // Black is in check while White is to move.
    let ghost_check = Board::from_fen("4k3/8/8/8/8/8/8/4RK2 w - - 0 1").unwrap();
    assert!(!ghost_check.is_legal());
    // An en-passant target off the third and sixth ranks.
    let bad_ep = Board::from_fen("4k3/8/8/8/8/8/8/4K3 w - e4 0 1").unwrap();
    assert!(!bad_ep.is_legal());
    let good_ep = Board::from_fen("4k3/8/8/3pP3/8/8/8/4K3 w - d6 0 1").unwrap();
    assert!(good_ep.is_legal());
    // Nine white pawns.
    let nine = Board::from_fen("4k3/8/8/8/8/1P6/PPPPPPPP/4K3 w - - 0 1").unwrap();
    assert!(!nine.is_legal());
}

#[test]
fn make_move_double_push() {
    let mut board = Board::new();
    board.make_move(mv(12, 28));
    assert_eq!(board.to_fen(), "rnbqkbnr/pppppppp/8/8/4P3/8/PPPP1PPP/RNBQKBNR b KQkq e3 0 1");
    board.make_move(mv(52, 36));
    assert_eq!(board.to_fen(), "rnbqkbnr/pppp1ppp/8/4p3/4P3/8/PPPP1PPP/RNBQKBNR w KQkq e6 0 2");
    board.make_move(mv(6, 21));
    assert_eq!(board.to_fen(), "rnbqkbnr/pppp1ppp/8/4p3/4P3/5N2/PPPP1PPP/RNBQKB1R b KQkq - 1 2");
}

#[test]
fn make_move_en_passant_capture() {
    let mut board = Board::from_fen("4k3/8/8/3pP3/8/8/8/4K3 w - d6 0 1").unwrap();
    board.make_move(mv(36, 43));
    assert_eq!(board.to_fen(), "4k3/8/3P4/8/8/8/8/4K3 b - - 0 1");
    assert_eq!(board.black_pawns, 0);
}

#[test]
fn make_move_castling_and_rights() {
    let mut board = Board::from_fen("r3k2r/8/8/8/8/8/8/R3K2R w KQkq - 0 1").unwrap();
    board.make_move(mv(4, 6));
    assert_eq!(board.to_fen(), "r3k2r/8/8/8/8/8/8/R4RK1 b kq - 1 1");
    board.make_move(mv(60, 58));
    assert_eq!(board.to_fen(), "2kr3r/8/8/8/8/8/8/R4RK1 w - - 2 2");
}

#[test]
fn make_move_capture_clears_castling_right() {
    let mut board = Board::from_fen("r3k2r/8/8/8/8/8/8/R3K2R w KQkq - 5 9").unwrap();
    board.make_move(mv(0, 56));
    assert_eq!(board.to_fen(), "R3k2r/8/8/8/8/8/8/4K2R b Kk - 0 9");
}

#[test]
fn make_move_promotion() {
    let mut board = Board::from_fen("8/P6k/8/8/8/8/8/4K3 w - - 0 1").unwrap();
    board.make_move(Move { source: 48, target: 56, promotion: Some(PieceType::Knight) });
    assert_eq!(board.to_fen(), "N7/7k/8/8/8/8/8/4K3 b - - 0 1");
    assert_eq!(board.white_pawns, 0);
    assert_eq!(board.white_knights, 1u64 << 56);
}

#[test]
fn evaluation_values() {
    assert_eq!(evaluate(&Board::new()), 0);
    assert_eq!(get_piece_value(PieceType::Pawn), 100);
    assert_eq!(get_piece_value(PieceType::Knight), 320);
    assert_eq!(get_piece_value(PieceType::Bishop), 330);
    assert_eq!(get_piece_value(PieceType::Rook), 500);
    assert_eq!(get_piece_value(PieceType::Queen), 900);
    assert_eq!(get_piece_value(PieceType::King), 20000);
    // White is a queen up; Black to move sees the position from its own side.
    let white_up = Board::from_fen("4k3/8/8/8/8/8/8/3QK3 w - - 0 1").unwrap();
    let black_view = Board::from_fen("4k3/8/8/8/8/8/8/3QK3 b - - 0 1").unwrap();
    assert_eq!(evaluate(&white_up), 900);
    assert_eq!(evaluate(&black_view), -900);
}

#[test]
fn evaluation_is_symmetric_for_mirrored_positions() {
    let a = Board::from_fen(START_FEN).unwrap();
    let mut b = a;
    b.make_move(mv(12, 28));
    let mut c = b;
    c.make_move(mv(52, 36));
    assert_eq!(evaluate(&c), 0);
}

#[test]
fn move_list_basics() {
    let mut list = MoveList::new();
    assert_eq!(list.count, 0);
    list.push(mv(12, 28));
    list.push(mv(6, 21));
    assert_eq!(list.count, 2);
    assert_eq!(list.moves[1], mv(6, 21));
    list.clear();
    assert_eq!(list.count, 0);
    assert_eq!(MoveList::default().count, 0);
    assert_eq!(Move::empty(), Move { source: 0, target: 0, promotion: None });
}

#[test]
fn evaluation_is_the_same_from_the_other_side() {
    let pairs = [
        (
            "rnbqkbnr/pppp1ppp/8/4p3/3P4/8/PPP1PPPP/RNBQKBNR w KQkq - 0 2",
            "rnbqkbnr/ppp1pppp/8/3p4/4P3/8/PPPP1PPP/RNBQKBNR b KQkq - 0 2",
        ),
        ("4k3/8/8/8/8/2N5/8/4K3 w - - 0 1", "4k3/8/2n5/8/8/8/8/4K3 b - - 0 1"),
        ("4k3/6p1/8/8/1B6/8/8/4K3 b - - 0 1", "4k3/8/8/1b6/8/8/6P1/4K3 w - - 0 1"),
    ];
    for (fen, mirrored) in pairs {
        let a = Board::from_fen(fen).unwrap();
        let b = Board::from_fen(mirrored).unwrap();
        assert_eq!(evaluate(&a), evaluate(&b));
    }
    let knight = Board::from_fen("4k3/8/8/8/8/2N5/8/4K3 w - - 0 1").unwrap();
    assert_eq!(evaluate(&knight), 320 + 10);
}
