use engine::constants::{bishop_relevant_bits, rook_relevant_bits};
use engine::magic_tables::init_magics;
use engine::magics::{
    bishop_attacks_slow, find_magic, mask_bishop_attacks, mask_rook_attacks, rook_attacks_slow,
};

/// A few blocker sets spread over the board.
fn sample_occupancies() -> Vec<u64> {
    let mut out = vec![0u64, u64::MAX, 0xFFFF_0000_0000_FFFF, 0x0000_0018_1800_0000];
    let mut x: u64 = 0x9E37_79B9_7F4A_7C15;
    for _ in 0..40 {
        x ^= x << 13;
        x ^= x >> 7;
        x ^= x << 17;
        out.push(x & (x >> 3));
    }
    out
}

fn bishop_numbers() -> [u64; 64] {
    let mut numbers = [0u64; 64];
    for square in 0..64u8 {
        numbers[square as usize] = find_magic(square, bishop_relevant_bits(square), false).unwrap();
    }
    numbers
}

#[test]
fn relevant_bits_match_mask_sizes() {
    for square in 0..64u8 {
        assert_eq!(mask_bishop_attacks(square).count_ones(), bishop_relevant_bits(square) as u32);
        assert_eq!(mask_rook_attacks(square).count_ones(), rook_relevant_bits(square) as u32);
    }
}

#[test]
fn table_layout() {
    let bishops = bishop_numbers();
    let rooks = [0u64; 64];
    let tables = init_magics(&bishops, &rooks);
    let mut bishop_offset = 0usize;
    let mut rook_offset = 0usize;
    for square in 0..64u8 {
        let entry = tables.get_entry(square, false);
        assert_eq!(entry.mask, mask_bishop_attacks(square));
        assert_eq!(entry.magic, bishops[square as usize]);
        assert_eq!(entry.shift, 64 - bishop_relevant_bits(square));
        assert_eq!(entry.offset, bishop_offset);
        bishop_offset += 1 << bishop_relevant_bits(square);
        let entry = tables.get_entry(square, true);
        assert_eq!(entry.mask, mask_rook_attacks(square));
        assert_eq!(entry.magic, 0);
        assert_eq!(entry.offset, rook_offset);
        rook_offset += 1 << rook_relevant_bits(square);
    }
    assert_eq!(bishop_offset, 5248);
    assert_eq!(rook_offset, 102400);
}

#[test]
fn bishop_lookups_match_slow_attacks() {
    let bishops = bishop_numbers();
    let tables = init_magics(&bishops, &[0u64; 64]);
    for square in 0..64u8 {
        for occupancy in sample_occupancies() {
            assert_eq!(
                tables.get_bishop_attacks(square, occupancy),
                bishop_attacks_slow(square, occupancy)
            );
        }
    }
}

#[test]
fn rook_and_queen_lookups_match_slow_attacks() {
    let mut rooks = [0u64; 64];
    let squares = [0u8, 27, 36, 63];
    for &square in &squares {
        rooks[square as usize] = find_magic(square, rook_relevant_bits(square), true).unwrap();
    }
    let bishops = bishop_numbers();
    let tables = init_magics(&bishops, &rooks);
    for &square in &squares {
        for occupancy in sample_occupancies() {
            assert_eq!(tables.get_rook_attacks(square, occupancy), rook_attacks_slow(square, occupancy));
            assert_eq!(
                tables.get_queen_attacks(square, occupancy),
                rook_attacks_slow(square, occupancy) | bishop_attacks_slow(square, occupancy)
            );
        }
    }
}
