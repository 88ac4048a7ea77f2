use engine::attacks::{
    generate_all_king_attacks, generate_all_knight_attacks, get_king_attacks, get_knight_attacks,
    mask_king_attacks, mask_knight_attacks,
};
use engine::board::Board;
use engine::magics::{
    bishop_attacks_slow, get_bishop_attacks, get_magic_index, get_queen_attacks, get_rook_attacks,
    mask_bishop_attacks, mask_rook_attacks, rook_attacks_slow, set_occupancy, Magic,
};
use engine::movegen::MoveGenerator;
use engine::search::perft;
use engine::types::{Move, PieceType};

fn legal_moves(fen: &str) -> Vec<Move> {
    let board = Board::from_fen(fen).unwrap();
    let mut movegen = MoveGenerator::new(&board);
    movegen.generate_moves();
    let list = movegen.moves;
    (0..list.count).map(|i| list.moves[i]).collect()
}

#[test]
fn knight_and_king_attacks() {
    assert_eq!(get_knight_attacks(1), 0x50800);
    assert_eq!(get_knight_attacks(0), 0x20400);
    assert_eq!(get_knight_attacks(27), 0x1422_0022_1400);
    assert_eq!(get_king_attacks(4), 0x3828);
    assert_eq!(get_king_attacks(0), 0x302);
    assert_eq!(get_king_attacks(63), 0x40C0_0000_0000_0000);
    assert_eq!(mask_knight_attacks(27), get_knight_attacks(27));
    assert_eq!(mask_king_attacks(63), get_king_attacks(63));
    let knights = generate_all_knight_attacks();
    let kings = generate_all_king_attacks();
    for square in 0..64u8 {
        assert_eq!(knights[square as usize], get_knight_attacks(square));
        assert_eq!(kings[square as usize], get_king_attacks(square));
    }
}

#[test]
fn slider_masks() {
    assert_eq!(mask_bishop_attacks(0), 0x0040_2010_0804_0200);
    assert_eq!(mask_rook_attacks(0), 0x0001_0101_0101_017E);
    assert_eq!(mask_bishop_attacks(27), 0x0040_2214_0014_2200);
    assert_eq!(mask_rook_attacks(27), 0x0008_0808_7608_0800);
    assert_eq!(mask_rook_attacks(0).count_ones(), 12);
    assert_eq!(mask_bishop_attacks(27).count_ones(), 9);
}

#[test]
fn slider_attacks_with_blockers() {
    let blockers = (1u64 << 43) | (1u64 << 29);
    assert_eq!(bishop_attacks_slow(27, blockers), 0x8041_2214_0014_2241);
    assert_eq!(rook_attacks_slow(27, blockers), 0x0000_0808_3708_0808);
    assert_eq!(get_bishop_attacks(27, blockers), bishop_attacks_slow(27, blockers));
    assert_eq!(get_rook_attacks(27, blockers), rook_attacks_slow(27, blockers));
    assert_eq!(
        get_queen_attacks(27, blockers),
        bishop_attacks_slow(27, blockers) | rook_attacks_slow(27, blockers)
    );
    // An empty board: a rook on a1 sees its whole rank and file.
    assert_eq!(rook_attacks_slow(0, 0), 0x0101_0101_0101_01FE);
}

#[test]
fn occupancy_permutations() {
    let mask = mask_rook_attacks(0);
    assert_eq!(set_occupancy(0, mask), 0);
    assert_eq!(set_occupancy(5, mask), 0xA);
    assert_eq!(set_occupancy(4095, mask), mask);
    assert_eq!(set_occupancy(1 << 6, mask), 1u64 << 8);
}

#[test]
fn magic_index() {
    let entry = Magic { mask: 0xFF00, magic: 3, shift: 60, offset: 0 };
    assert_eq!(get_magic_index(&entry, 0xFFFF_0000_0000_FFFF), ((0xFF00u64 * 3) >> 60) as usize);
    let entry = Magic { mask: u64::MAX, magic: 1u64 << 63, shift: 63, offset: 7 };
    assert_eq!(get_magic_index(&entry, 1), 1);
    assert_eq!(get_magic_index(&entry, 2), 0);
}

#[test]
fn start_position_moves() {
    let moves = legal_moves("rnbqkbnr/pppppppp/8/8/8/8/PPPPPPPP/RNBQKBNR w KQkq - 0 1");
    assert_eq!(moves.len(), 20);
    assert!(moves.contains(&Move { source: 12, target: 28, promotion: None }));
    assert!(moves.contains(&Move { source: 6, target: 21, promotion: None }));
    assert!(!moves.contains(&Move { source: 4, target: 12, promotion: None }));
}

#[test]
fn promotions_are_generated() {
    let moves = legal_moves("7k/P7/8/8/8/8/8/K7 w - - 0 1");
    let promotions: Vec<Move> = moves.iter().copied().filter(|m| m.source == 48).collect();
    assert_eq!(promotions.len(), 4);
    for piece in [PieceType::Queen, PieceType::Rook, PieceType::Bishop, PieceType::Knight] {
        assert!(promotions.contains(&Move { source: 48, target: 56, promotion: Some(piece) }));
    }
}

#[test]
fn castling_moves() {
    let moves = legal_moves("r3k2r/8/8/8/8/8/8/R3K2R w KQkq - 0 1");
    assert!(moves.contains(&Move { source: 4, target: 6, promotion: None }));
    assert!(moves.contains(&Move { source: 4, target: 2, promotion: None }));
    // A rook on f8 covers f1: no kingside castling.
    let moves = legal_moves("r3kr2/8/8/8/8/8/8/R3K2R w KQq - 0 1");
    assert!(!moves.contains(&Move { source: 4, target: 6, promotion: None }));
    assert!(moves.contains(&Move { source: 4, target: 2, promotion: None }));
    let moves = legal_moves("r3k2r/8/8/8/8/8/8/R3K2R b kq - 0 1");
    assert!(moves.contains(&Move { source: 60, target: 62, promotion: None }));
    assert!(moves.contains(&Move { source: 60, target: 58, promotion: None }));
}

#[test]
fn pinned_piece_cannot_move() {
    // The knight on e2 is pinned by the rook on e8.
    let moves = legal_moves("4r2k/8/8/8/8/8/4N3/4K3 w - - 0 1");
    assert!(moves.iter().all(|m| m.source != 12));
}

#[test]
fn checkmate_and_stalemate_have_no_moves() {
    assert!(legal_moves("rnb1kbnr/pppp1ppp/8/4p3/6Pq/5P2/PPPPP2P/RNBQKBNR w KQkq - 1 3").is_empty());
    assert!(legal_moves("7k/5Q2/6K1/8/8/8/8/8 b - - 0 1").is_empty());
}

#[test]
fn perft_start_position() {
    let board = Board::new();
    assert_eq!(perft(&board, 0), 1);
    assert_eq!(perft(&board, 1), 20);
    assert_eq!(perft(&board, 2), 400);
    assert_eq!(perft(&board, 3), 8902);
}

#[test]
fn perft_kiwipete() {
    let board =
        Board::from_fen("r3k2r/p1ppqpb1/bn2pnp1/3PN3/1p2P3/2N2Q1p/PPPBBPPP/R3K2R w KQkq - 0 1").unwrap();
    assert_eq!(perft(&board, 1), 48);
    assert_eq!(perft(&board, 2), 2039);
}

#[test]
fn perft_endgame_position() {
    let board = Board::from_fen("8/2p5/3p4/KP5r/1R3p1k/8/4P1P1/8 w - - 0 1").unwrap();
    assert_eq!(perft(&board, 1), 14);
    assert_eq!(perft(&board, 2), 191);
    assert_eq!(perft(&board, 3), 2812);
}

#[test]
fn perft_promotion_position() {
    let board =
        Board::from_fen("rnbq1k1r/pp1Pbppp/2p5/8/2B5/8/PPP1NnPP/RNBQK2R w KQ - 1 8").unwrap();
    assert_eq!(perft(&board, 1), 44);
    assert_eq!(perft(&board, 2), 1486);
}

#[test]
fn perft_start_position_depth_four() {
    assert_eq!(perft(&Board::new(), 4), 197_281);
}

#[test]
fn perft_start_position_depth_five() {
    assert_eq!(perft(&Board::new(), 5), 4_865_609);
}
