use engine::board::Board;
use engine::error::FenError;
use engine::types::Color;

const START_FEN: &str = "rnbqkbnr/pppppppp/8/8/8/8/PPPPPPPP/RNBQKBNR w KQkq - 0 1";
const MIDGAME_FEN: &str = "r1bq2r1/b4pk1/p1pp1p2/1p2pP2/1P2P1PB/3P4/1PPQ2P1/R3K2R w KQ - 1 20";

#[test]
fn start_position_to_fen() {
    assert_eq!(Board::new().to_fen(), START_FEN);
}

#[test]
fn start_position_from_fen() {
    assert_eq!(Board::from_fen(START_FEN), Ok(Board::new()));
    let parsed: Board = START_FEN.parse().unwrap();
    assert_eq!(parsed, Board::new());
}

#[test]
fn fen_round_trips() {
    let fens = [
        START_FEN,
        MIDGAME_FEN,
        "r3k2r/p1ppqpb1/bn2pnp1/3PN3/1p2P3/2N2Q1p/PPPBBPPP/R3K2R w KQkq - 0 1",
        "8/2p5/3p4/KP5r/1R3p1k/8/4P1P1/8 w - - 0 1",
        "rnbqkbnr/pppp1ppp/8/4p3/4P3/8/PPPP1PPP/RNBQKBNR w KQkq e6 0 2",
        "4k3/8/8/8/8/8/8/4K3 b - - 255 65535",
    ];
    for fen in fens {
        let board = Board::from_fen(fen).unwrap();
        assert_eq!(board.to_fen(), fen);
    }
}

#[test]
fn fen_fields_read() {
    let board = Board::from_fen(MIDGAME_FEN).unwrap();
    assert_eq!(board.active_color, Color::White);
    assert_eq!(board.castling_rights, 0b0011);
    assert_eq!(board.half_move_clock, 1);
    assert_eq!(board.full_move_number, 20);
    assert_eq!(board.white_king, 1u64 << 4);
    assert_eq!(board.black_king, 1u64 << 54);
    assert_eq!(board.white_occupancy & board.black_occupancy, 0);
    assert_eq!(board.all_occupancy, board.white_occupancy | board.black_occupancy);
    let ep = Board::from_fen("4k3/8/8/3pP3/8/8/8/4K3 w - d6 0 1").unwrap();
    assert_eq!(ep.en_passant_target, 1u64 << 43);
}

#[test]
fn fen_whitespace_and_signs() {
    let board = Board::from_fen("  4k3/8/8/8/8/8/8/4K3\tb\n-  -  +7 007  trailing").unwrap();
    assert_eq!(board.active_color, Color::Black);
    assert_eq!(board.half_move_clock, 7);
    assert_eq!(board.full_move_number, 7);
    // A dash ends the castling field.
    let dash = Board::from_fen("4k3/8/8/8/8/8/8/4K3 w K-q - 0 1").unwrap();
    assert_eq!(dash.castling_rights, 0b0001);
}

#[test]
fn fen_missing_fields() {
    assert_eq!(Board::from_fen(""), Err(FenError::MissingField("board")));
    assert_eq!(Board::from_fen("   "), Err(FenError::MissingField("board")));
    assert_eq!(Board::from_fen("8/8/8/8/8/8/8/8"), Err(FenError::MissingField("color")));
    assert_eq!(Board::from_fen("8/8/8/8/8/8/8/8 w"), Err(FenError::MissingField("castling")));
    assert_eq!(Board::from_fen("8/8/8/8/8/8/8/8 w -"), Err(FenError::MissingField("en_passant")));
    assert_eq!(Board::from_fen("8/8/8/8/8/8/8/8 w - -"), Err(FenError::MissingField("half_move")));
    assert_eq!(Board::from_fen("8/8/8/8/8/8/8/8 w - - 0"), Err(FenError::MissingField("full_move")));
}

#[test]
fn fen_bad_placement() {
    assert_eq!(Board::from_fen("8/8/8/8/8/8/8 w - - 0 1"), Err(FenError::InvalidRanksCount(7)));
    assert_eq!(Board::from_fen("8/8/8/8/8/8/8/8/8 w - - 0 1"), Err(FenError::InvalidRanksCount(9)));
    assert_eq!(Board::from_fen("9/8/8/8/8/8/8/8 w - - 0 1"), Err(FenError::InvalidEmptySquares(9)));
    assert_eq!(Board::from_fen("8/8/0/8/8/8/8/8 w - - 0 1"), Err(FenError::InvalidEmptySquares(0)));
    assert_eq!(
        Board::from_fen("8/8/8/8/8/8/8/44p w - - 0 1"),
        Err(FenError::TooManyFilesInRank(1))
    );
    assert_eq!(
        Board::from_fen("8/7/8/8/8/8/8/8 w - - 0 1"),
        Err(FenError::InvalidFileCountInRank(7))
    );
    assert_eq!(
        Board::from_fen("8/8/8/8/54/8/8/8 w - - 0 1"),
        Err(FenError::TooManyFilesInRank(4))
    );
    assert_eq!(
        Board::from_fen("p8/8/8/8/8/8/8/8 w - - 0 1"),
        Err(FenError::TooManyFilesInRank(8))
    );
    assert_eq!(Board::from_fen("8/8/8/8/8/8/8/7x w - - 0 1"), Err(FenError::InvalidCharacter('x')));
    assert_eq!(Board::from_fen("8/8/8/8/8/8/8/7. w - - 0 1"), Err(FenError::InvalidCharacter('.')));
}

#[test]
fn fen_bad_state_fields() {
    assert_eq!(
        Board::from_fen("8/8/8/8/8/8/8/8 x - - 0 1"),
        Err(FenError::InvalidColor("x".to_string()))
    );
    assert_eq!(
        Board::from_fen("8/8/8/8/8/8/8/8 white - - 0 1"),
        Err(FenError::InvalidColor("white".to_string()))
    );
    assert_eq!(
        Board::from_fen("8/8/8/8/8/8/8/8 w KX - 0 1"),
        Err(FenError::InvalidCastlingCharacter('X'))
    );
    assert_eq!(
        Board::from_fen("8/8/8/8/8/8/8/8 w - z9 0 1"),
        Err(FenError::InvalidEnPassantTarget("z9".to_string()))
    );
    assert_eq!(
        Board::from_fen("8/8/8/8/8/8/8/8 w - e33 0 1"),
        Err(FenError::InvalidEnPassantTarget("e33".to_string()))
    );
    assert_eq!(
        Board::from_fen("8/8/8/8/8/8/8/8 w - - 256 1"),
        Err(FenError::InvalidHalfMoveClock("256".to_string()))
    );
    assert_eq!(
        Board::from_fen("8/8/8/8/8/8/8/8 w - - -1 1"),
        Err(FenError::InvalidHalfMoveClock("-1".to_string()))
    );
    assert_eq!(
        Board::from_fen("8/8/8/8/8/8/8/8 w - - 0 x"),
        Err(FenError::InvalidFullMoveNumber("x".to_string()))
    );
    assert_eq!(
        Board::from_fen("8/8/8/8/8/8/8/8 w - - 0 65536"),
        Err(FenError::InvalidFullMoveNumber("65536".to_string()))
    );
    assert_eq!(
        Board::from_fen("8/8/8/8/8/8/8/8 w - - 0 +"),
        Err(FenError::InvalidFullMoveNumber("+".to_string()))
    );
}

#[test]
fn fen_placement_error_comes_before_state_errors() {
    assert_eq!(Board::from_fen("8/8/8/8/8/8/8/7x y Z z9 a b"), Err(FenError::InvalidCharacter('x')));
    assert_eq!(
        Board::from_fen("8/8/8/8/8/8/8/8 y Z z9 a b"),
        Err(FenError::InvalidColor("y".to_string()))
    );
}

#[test]
fn board_to_fen_and_back() {
    let mut board = Board::new();
    let moves = [(12u8, 28u8), (51, 35), (28, 35), (59, 35), (1, 18), (35, 11)];
    for (source, target) in moves {
        board.make_move(engine::types::Move { source, target, promotion: None });
        let text = board.to_fen();
        assert_eq!(Board::from_fen(&text), Ok(board));
    }
    let empty = Board::empty();
    assert_eq!(Board::from_fen(&empty.to_fen()), Ok(empty));
}

#[test]
fn fen_error_texts_keep_the_field_characters() {
    assert_eq!(
        Board::from_fen("8/8/8/8/8/8/8/8 \u{e9}t\u{e9} - - 0 1"),
        Err(FenError::InvalidColor("\u{e9}t\u{e9}".to_string()))
    );
    assert_eq!(
        Board::from_fen("8/8/8/8/8/8/8/8 w - \u{2192}3 0 1"),
        Err(FenError::InvalidEnPassantTarget("\u{2192}3".to_string()))
    );
    assert_eq!(
        Board::from_fen("  8/8/8/8/8/8/8/8 w - - x\u{df} 1"),
        Err(FenError::InvalidHalfMoveClock("x\u{df}".to_string()))
    );
}
