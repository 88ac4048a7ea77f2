use engine::board::Board;
use engine::magics::{find_magic, mask_bishop_attacks, bishop_attacks_slow, set_occupancy};
use engine::error::FenError;
use engine::notation::{score_verdict, ScoreVerdict};
use engine::types::{Color, Move, PieceType};
use engine::zobrist::{get_piece_index, init_zobrist, zobrist_hash, Prng};

#[test]
fn prng_sequence() {
    let mut prng = Prng::new(1010);
    assert_eq!(prng.rand64(), 0xFD_7E94_BF75);
    assert_eq!(prng.rand64(), 0x20FC_FD20_603E_EB4B);
    assert_eq!(prng.rand64(), 0x3FAD_A49F_BA97_245D);
    let mut sparse = Prng::new(1010);
    assert_eq!(sparse.random_sparse_u64(), 0x2014_2041);
}

#[test]
fn piece_indices() {
    assert_eq!(get_piece_index(Color::White, PieceType::Pawn), 0);
    assert_eq!(get_piece_index(Color::White, PieceType::King), 5);
    assert_eq!(get_piece_index(Color::Black, PieceType::Pawn), 6);
    assert_eq!(get_piece_index(Color::Black, PieceType::King), 11);
}

#[test]
fn zobrist_keys_and_hash() {
    let keys = init_zobrist();
    assert_eq!(keys.piece_keys[0][0], 0x2014_2041);
    let again = init_zobrist();
    assert_eq!(keys.side_key, again.side_key);
    let start = Board::new();
    assert_eq!(zobrist_hash(&start, &keys), zobrist_hash(&Board::new(), &keys));
    let mut moved = start;
    moved.make_move(Move { source: 6, target: 21, promotion: None });
    moved.make_move(Move { source: 62, target: 45, promotion: None });
    moved.make_move(Move { source: 21, target: 6, promotion: None });
    moved.make_move(Move { source: 45, target: 62, promotion: None });
    // Same pieces, side and rights as the start: only the clocks differ.
    assert_eq!(zobrist_hash(&moved, &keys), zobrist_hash(&start, &keys));
    let mut e4 = start;
    e4.make_move(Move { source: 12, target: 28, promotion: None });
    assert_ne!(zobrist_hash(&e4, &keys), zobrist_hash(&start, &keys));
}

#[test]
fn found_magic_separates_attacks() {
    let square = 0u8;
    let bits = 6u8;
    let magic = find_magic(square, bits, false).unwrap();
    let mask = mask_bishop_attacks(square);
    let mut seen = vec![0u64; 1 << bits];
    for index in 0..(1usize << bits) {
        let occupancy = set_occupancy(index, mask);
        let attack = bishop_attacks_slow(square, occupancy);
        let slot = (occupancy.wrapping_mul(magic) >> (64 - bits)) as usize;
        assert!(seen[slot] == 0 || seen[slot] == attack);
        seen[slot] = attack;
    }
    assert!((mask.wrapping_mul(magic) & 0xFF00_0000_0000_0000).count_ones() >= 6);
}

#[test]
fn move_notation() {
    let push = Move { source: 12, target: 28, promotion: None };
    assert_eq!(push.squares_text(), "e2e4");
    assert_eq!(push.to_uci(), "e2e4");
    let promotion = Move { source: 52, target: 60, promotion: Some(PieceType::Knight) };
    assert_eq!(promotion.squares_text(), "e7e8");
    assert_eq!(promotion.to_uci(), "e7e8n");
    let corner = Move { source: 0, target: 63, promotion: Some(PieceType::Queen) };
    assert_eq!(corner.to_uci(), "a1h8q");
}

#[test]
fn score_verdicts() {
    assert_eq!(score_verdict(48_901), ScoreVerdict::MateFound);
    assert_eq!(score_verdict(-48_901), ScoreVerdict::GettingMated);
    assert_eq!(score_verdict(48_000), ScoreVerdict::Centipawns(48_000));
    assert_eq!(score_verdict(-35), ScoreVerdict::Centipawns(-35));
}

#[test]
fn fen_error_messages() {
    assert_eq!(FenError::MissingField("color").message(), "Missing FEN field: color");
    assert_eq!(FenError::InvalidRanksCount(7).message(), "Expected 8 ranks, found 7");
    assert_eq!(FenError::InvalidEmptySquares(9).message(), "Invalid empty squares count: 9");
    assert_eq!(FenError::TooManyFilesInRank(3).message(), "Rank 3 has more than 8 files");
    assert_eq!(FenError::InvalidFileCountInRank(12).message(), "Rank 12 has fewer than 8 files");
    assert_eq!(FenError::InvalidCharacter('x').message(), "Invalid board character: 'x'");
    assert_eq!(FenError::InvalidColor("y".to_string()).message(), "Invalid active color: 'y'");
    assert_eq!(
        FenError::InvalidCastlingCharacter('Z').message(),
        "Invalid castling character: 'Z'"
    );
    assert_eq!(
        FenError::InvalidEnPassantTarget("z9".to_string()).message(),
        "Invalid en passant target: 'z9'"
    );
    assert_eq!(
        FenError::InvalidHalfMoveClock("256".to_string()).message(),
        "Invalid half-move clock: '256'"
    );
    assert_eq!(
        FenError::InvalidFullMoveNumber("x".to_string()).message(),
        "Invalid full-move number: 'x'"
    );
}
