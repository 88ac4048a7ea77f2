use engine::attacks::{get_king_attacks, get_knight_attacks};
use engine::board::Board;
use engine::magic_tables::init_magics;
use engine::magics::{
    bishop_attacks_slow, mask_bishop_attacks, mask_rook_attacks, rook_attacks_slow, set_occupancy,
};
use engine::movegen::MoveGenerator;
use engine::search::perft;
use engine::types::Color;

fn piece_boards(b: &Board) -> [u64; 12] {
    [
        b.white_pawns,
        b.white_knights,
        b.white_bishops,
        b.white_rooks,
        b.white_queens,
        b.white_king,
        b.black_pawns,
        b.black_knights,
        b.black_bishops,
        b.black_rooks,
        b.black_queens,
        b.black_king,
    ]
}

fn one_piece_per_square(b: &Board) -> bool {
    let boards = piece_boards(b);
    for i in 0..12 {
        for j in (i + 1)..12 {
            if boards[i] & boards[j] != 0 {
                return false;
            }
        }
    }
    let white = boards[..6].iter().fold(0u64, |acc, x| acc | x);
    let black = boards[6..].iter().fold(0u64, |acc, x| acc | x);
    b.white_occupancy == white && b.black_occupancy == black && b.all_occupancy == white | black
}

#[test]
fn legal_moves_keep_one_piece_per_square_and_the_mover_safe() {
    let fens = [
        "rnbqkbnr/pppppppp/8/8/8/8/PPPPPPPP/RNBQKBNR w KQkq - 0 1",
        "r3k2r/p1ppqpb1/bn2pnp1/3PN3/1p2P3/2N2Q1p/PPPBBPPP/R3K2R w KQkq - 0 1",
        "rnbqkbnr/ppp1p1pp/8/3pPp2/8/8/PPPP1PPP/RNBQKBNR w KQkq f6 0 3",
        "n1n5/PPPk4/8/8/8/8/4Kppp/5N1N b - - 0 1",
    ];
    for fen in fens {
        let board = Board::from_fen(fen).unwrap();
        assert!(one_piece_per_square(&board));
        let mut movegen = MoveGenerator::new(&board);
        movegen.generate_moves();
        let list = movegen.take_moves();
        assert!(list.count > 0);
        for i in 0..list.count {
            let mut next = board;
            next.make_move(list.moves[i]);
            assert!(one_piece_per_square(&next), "{fen}: move {i}");
            let (king, enemy) = match board.active_color {
                Color::White => (next.white_king, Color::Black),
                Color::Black => (next.black_king, Color::White),
            };
            assert!(!next.is_square_attacked(king.trailing_zeros() as u8, enemy));
        }
    }
}

#[test]
fn canonical_fen_reads_back_as_itself() {
    let fens = [
        "rnbqkbnr/pppppppp/8/8/8/8/PPPPPPPP/RNBQKBNR w KQkq - 0 1",
        "r1bq2r1/b4pk1/p1pp1p2/1p2pP2/1P2P1PB/3P4/1PPQ2P1/R3K2R w KQ - 1 20",
        "8/2p5/3p4/KP5r/1R3p1k/8/4P1P1/8 w - - 0 1",
        "rnbqkbnr/ppp1p1pp/8/3pPp2/8/8/PPPP1PPP/RNBQKBNR w Kq f6 0 3",
    ];
    for fen in fens {
        assert_eq!(Board::from_fen(fen).unwrap().to_fen(), fen);
    }
}

#[test]
fn occupancy_numbers_give_distinct_configurations() {
    assert_eq!(set_occupancy(5, 0xB0), 0x90);
    let mask = 0xB0u64;
    let configs: Vec<u64> = (0..8usize).map(|i| set_occupancy(i, mask)).collect();
    for i in 0..8 {
        assert_eq!(configs[i] & !mask, 0);
        for j in (i + 1)..8 {
            assert_ne!(configs[i], configs[j]);
        }
    }
    let mask = mask_bishop_attacks(27);
    let n = mask.count_ones();
    let mut configs: Vec<u64> = (0..(1usize << n)).map(|i| set_occupancy(i, mask)).collect();
    configs.sort_unstable();
    configs.dedup();
    assert_eq!(configs.len(), 1 << n);
}

#[test]
fn bishop_mask_is_empty_board_reach_off_the_edge() {
    assert_eq!(mask_bishop_attacks(0), 0x0040_2010_0804_0200);
    for square in 0..64u8 {
        assert_eq!(
            mask_bishop_attacks(square),
            bishop_attacks_slow(square, 0) & 0x007E_7E7E_7E7E_7E00
        );
    }
}

#[test]
fn entry_shift_matches_mask_size() {
    let tables = init_magics(&[0u64; 64], &[0u64; 64]);
    for square in 0..64u8 {
        for is_rook in [false, true] {
            let entry = tables.get_entry(square, is_rook);
            assert_eq!(entry.shift as u32, 64 - entry.mask.count_ones());
        }
    }
}

#[test]
fn generation_without_king_or_moves_finds_nothing() {
    let board = Board::from_fen("k7/8/8/8/8/8/8/8 w - - 0 1").unwrap();
    let mut movegen = MoveGenerator::new(&board);
    movegen.generate_moves();
    assert_eq!(movegen.take_moves().count, 0);
    assert_eq!(perft(&board, 2), 0);
}

#[test]
fn rook_reach_depends_only_on_masked_blockers() {
    let blockers = (1u64 << 16) | (1u64 << 3);
    assert_eq!(rook_attacks_slow(0, blockers), 0x1_010E);
    for square in [0u8, 27, 63] {
        for occ in [blockers, 0xFFFF_0000_0000_FFFF, 0x8100_0000_0000_0081] {
            assert_eq!(
                rook_attacks_slow(square, occ),
                rook_attacks_slow(square, occ & mask_rook_attacks(square))
            );
        }
    }
}

fn pawn_sources(square: u8, attacker: Color) -> u64 {
    let file = square % 8;
    let mut sources = 0u64;
    match attacker {
        Color::White => {
            if square >= 9 && file != 0 {
                sources |= 1 << (square - 9);
            }
            if square >= 7 && file != 7 {
                sources |= 1 << (square - 7);
            }
        }
        Color::Black => {
            if square + 7 < 64 && file != 0 {
                sources |= 1 << (square + 7);
            }
            if square + 9 < 64 && file != 7 {
                sources |= 1 << (square + 9);
            }
        }
    }
    sources
}

#[test]
fn square_attacks_match_the_bitboard_formula() {
    let fens = [
        "rnbqkbnr/pppppppp/8/8/8/8/PPPPPPPP/RNBQKBNR w KQkq - 0 1",
        "r3k2r/p1ppqpb1/bn2pnp1/3PN3/1p2P3/2N2Q1p/PPPBBPPP/R3K2R w KQkq - 0 1",
        "8/2p5/3p4/KP5r/1R3p1k/8/4P1P1/8 w - - 0 1",
    ];
    for fen in fens {
        let b = Board::from_fen(fen).unwrap();
        for attacker in [Color::White, Color::Black] {
            let (p, n, bi, r, q, k) = match attacker {
                Color::White => (
                    b.white_pawns,
                    b.white_knights,
                    b.white_bishops,
                    b.white_rooks,
                    b.white_queens,
                    b.white_king,
                ),
                Color::Black => (
                    b.black_pawns,
                    b.black_knights,
                    b.black_bishops,
                    b.black_rooks,
                    b.black_queens,
                    b.black_king,
                ),
            };
            for square in 0..64u8 {
                let expected = (p & pawn_sources(square, attacker)) != 0
                    || (n & get_knight_attacks(square)) != 0
                    || ((bi | q) & bishop_attacks_slow(square, b.all_occupancy)) != 0
                    || ((r | q) & rook_attacks_slow(square, b.all_occupancy)) != 0
                    || (k & get_king_attacks(square)) != 0;
                assert_eq!(b.is_square_attacked(square, attacker), expected, "{fen} {square}");
            }
        }
    }
}

#[test]
fn generated_moves_are_distinct() {
    let fens = [
        "rnbqkbnr/pppppppp/8/8/8/8/PPPPPPPP/RNBQKBNR w KQkq - 0 1",
        "r3k2r/p1ppqpb1/bn2pnp1/3PN3/1p2P3/2N2Q1p/PPPBBPPP/R3K2R w KQkq - 0 1",
        "rnbqkbnr/ppp1p1pp/8/3pPp2/8/8/PPPP1PPP/RNBQKBNR w KQkq f6 0 3",
        "n1n5/PPPk4/8/8/8/8/4Kppp/5N1N b - - 0 1",
    ];
    for fen in fens {
        let board = Board::from_fen(fen).unwrap();
        let mut movegen = MoveGenerator::new(&board);
        movegen.generate_moves();
        let list = movegen.take_moves();
        for i in 0..list.count {
            for j in (i + 1)..list.count {
                assert_ne!(list.moves[i], list.moves[j], "{fen}");
            }
        }
    }
}
