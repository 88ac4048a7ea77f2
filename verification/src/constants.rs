use vstd::prelude::*;
use crate::bitboard::bit_set;

verus! {

/// Squares of the a-file.
pub const A_FILE: u64 = 0x0101_0101_0101_0101;
/// Squares of the a- and b-files.
pub const AB_FILE: u64 = 0x0303_0303_0303_0303;
/// Squares of the h-file.
pub const H_FILE: u64 = 0x8080_8080_8080_8080;
/// Squares of the g- and h-files.
pub const GH_FILE: u64 = 0xC0C0_C0C0_C0C0_C0C0;
/// Squares of the fourth rank.
pub const RANK_4: u64 = 0x0000_0000_FF00_0000;
/// Squares of the fifth rank.
pub const RANK_5: u64 = 0x0000_00FF_0000_0000;
/// Squares of the first and eighth ranks.
pub const RANK_1_8: u64 = 0xFF00_0000_0000_00FF;

/// Castling-right flags, in the order `K`, `Q`, `k`, `q`.
pub const WK_CASTLING: u8 = 0b0001;
pub const WQ_CASTLING: u8 = 0b0010;
pub const BK_CASTLING: u8 = 0b0100;
pub const BQ_CASTLING: u8 = 0b1000;

/// Squares that must be empty for each castling move.
pub const WK_EMPTY_MASK: u64 = 0x0000_0000_0000_0060;
pub const WQ_EMPTY_MASK: u64 = 0x0000_0000_0000_000E;
pub const BK_EMPTY_MASK: u64 = 0x6000_0000_0000_0000;
pub const BQ_EMPTY_MASK: u64 = 0x0E00_0000_0000_0000;

/// The castling rights that survive a move touching `square`
/// (a king or rook leaving, or a rook being captured on, its home square).
pub open spec fn castling_keep_spec(square: int) -> u8 {
    if square == 0 {
        0b1101u8
    } else if square == 4 {
        0b1100u8
    } else if square == 7 {
        0b1110u8
    } else if square == 56 {
        0b0111u8
    } else if square == 60 {
        0b0011u8
    } else if square == 63 {
        0b1011u8
    } else {
        0b1111u8
    }
}

/// The mask of castling rights kept when a move touches `square`.
pub fn castling_rights_update(square: u8) -> (r: u8)
    ensures
        r == castling_keep_spec(square as int),
{
    if square == 0 {
        0b1101
    } else if square == 4 {
        0b1100
    } else if square == 7 {
        0b1110
    } else if square == 56 {
        0b0111
    } else if square == 60 {
        0b0011
    } else if square == 63 {
        0b1011
    } else {
        0b1111
    }
}

/// Number of relevant occupancy bits of the bishop mask on each square.
pub open spec fn bishop_relevant_bits_spec(square: int) -> u8 {
    let r = square / 8;
    let f = square % 8;
    if (r == 0 || r == 7) && (f == 0 || f == 7) {
        6u8
    } else if 2 <= r <= 5 && 2 <= f <= 5 {
        if 3 <= r <= 4 && 3 <= f <= 4 {
            9u8
        } else {
            7u8
        }
    } else {
        5u8
    }
}

/// Number of relevant occupancy bits of the rook mask on each square.
pub open spec fn rook_relevant_bits_spec(square: int) -> u8 {
    let r = square / 8;
    let f = square % 8;
    let edge_r = r == 0 || r == 7;
    let edge_f = f == 0 || f == 7;
    if edge_r && edge_f {
        12u8
    } else if edge_r || edge_f {
        11u8
    } else {
        10u8
    }
}

/// The bishop relevant-bit count of `square`.
pub fn bishop_relevant_bits(square: u8) -> (r: u8)
    requires
        square < 64,
    ensures
        r == bishop_relevant_bits_spec(square as int),
{
    let rank = square / 8;
    let file = square % 8;
    if (rank == 0 || rank == 7) && (file == 0 || file == 7) {
        6
    } else if 2 <= rank && rank <= 5 && 2 <= file && file <= 5 {
        if 3 <= rank && rank <= 4 && 3 <= file && file <= 4 {
            9
        } else {
            7
        }
    } else {
        5
    }
}

/// The rook relevant-bit count of `square`.
pub fn rook_relevant_bits(square: u8) -> (r: u8)
    requires
        square < 64,
    ensures
        r == rook_relevant_bits_spec(square as int),
{
    let rank = square / 8;
    let file = square % 8;
    let edge_r = rank == 0 || rank == 7;
    let edge_f = file == 0 || file == 7;
    if edge_r && edge_f {
        12
    } else if edge_r || edge_f {
        11
    } else {
        10
    }
}

proof fn bv_masks(i: u64)
    by (bit_vector)
    requires
        i < 64,
    ensures
        ((A_FILE >> i) & 1u64 == 1u64) <==> i % 8 == 0,
        ((AB_FILE >> i) & 1u64 == 1u64) <==> i % 8 <= 1,
        ((H_FILE >> i) & 1u64 == 1u64) <==> i % 8 == 7,
        ((GH_FILE >> i) & 1u64 == 1u64) <==> i % 8 >= 6,
        ((RANK_4 >> i) & 1u64 == 1u64) <==> i / 8 == 3,
        ((RANK_5 >> i) & 1u64 == 1u64) <==> i / 8 == 4,
        ((RANK_1_8 >> i) & 1u64 == 1u64) <==> (i / 8 == 0 || i / 8 == 7),
        ((WK_EMPTY_MASK >> i) & 1u64 == 1u64) <==> (i == 5 || i == 6),
        ((WQ_EMPTY_MASK >> i) & 1u64 == 1u64) <==> (1 <= i <= 3),
        ((BK_EMPTY_MASK >> i) & 1u64 == 1u64) <==> (i == 61 || i == 62),
        ((BQ_EMPTY_MASK >> i) & 1u64 == 1u64) <==> (57 <= i <= 59),
{
}

/// The squares of `A_FILE`.
pub broadcast proof fn lemma_a_file_squares(i: int)
    ensures
        #[trigger] bit_set(A_FILE, i) == (0 <= i < 64 && i % 8 == 0),
{
    if 0 <= i < 64 {
        bv_masks(i as u64);
    }
}

/// The squares of `AB_FILE`.
pub broadcast proof fn lemma_ab_file_squares(i: int)
    ensures
        #[trigger] bit_set(AB_FILE, i) == (0 <= i < 64 && i % 8 <= 1),
{
    if 0 <= i < 64 {
        bv_masks(i as u64);
    }
}

/// The squares of `H_FILE`.
pub broadcast proof fn lemma_h_file_squares(i: int)
    ensures
        #[trigger] bit_set(H_FILE, i) == (0 <= i < 64 && i % 8 == 7),
{
    if 0 <= i < 64 {
        bv_masks(i as u64);
    }
}

/// The squares of `GH_FILE`.
pub broadcast proof fn lemma_gh_file_squares(i: int)
    ensures
        #[trigger] bit_set(GH_FILE, i) == (0 <= i < 64 && i % 8 >= 6),
{
    if 0 <= i < 64 {
        bv_masks(i as u64);
    }
}

/// The squares of `RANK_4`.
pub broadcast proof fn lemma_rank_4_squares(i: int)
    ensures
        #[trigger] bit_set(RANK_4, i) == (0 <= i < 64 && i / 8 == 3),
{
    if 0 <= i < 64 {
        bv_masks(i as u64);
    }
}

/// The squares of `RANK_5`.
pub broadcast proof fn lemma_rank_5_squares(i: int)
    ensures
        #[trigger] bit_set(RANK_5, i) == (0 <= i < 64 && i / 8 == 4),
{
    if 0 <= i < 64 {
        bv_masks(i as u64);
    }
}

/// The squares of `RANK_1_8`.
pub broadcast proof fn lemma_rank_1_8_squares(i: int)
    ensures
        #[trigger] bit_set(RANK_1_8, i) == (0 <= i < 64 && (i / 8 == 0 || i / 8 == 7)),
{
    if 0 <= i < 64 {
        bv_masks(i as u64);
    }
}

/// The squares of `WK_EMPTY_MASK`.
pub broadcast proof fn lemma_wk_empty_squares(i: int)
    ensures
        #[trigger] bit_set(WK_EMPTY_MASK, i) == (i == 5 || i == 6),
{
    if 0 <= i < 64 {
        bv_masks(i as u64);
    }
}

/// The squares of `WQ_EMPTY_MASK`.
pub broadcast proof fn lemma_wq_empty_squares(i: int)
    ensures
        #[trigger] bit_set(WQ_EMPTY_MASK, i) == (1 <= i <= 3),
{
    if 0 <= i < 64 {
        bv_masks(i as u64);
    }
}

/// The squares of `BK_EMPTY_MASK`.
pub broadcast proof fn lemma_bk_empty_squares(i: int)
    ensures
        #[trigger] bit_set(BK_EMPTY_MASK, i) == (i == 61 || i == 62),
{
    if 0 <= i < 64 {
        bv_masks(i as u64);
    }
}

/// The squares of `BQ_EMPTY_MASK`.
pub broadcast proof fn lemma_bq_empty_squares(i: int)
    ensures
        #[trigger] bit_set(BQ_EMPTY_MASK, i) == (57 <= i <= 59),
{
    if 0 <= i < 64 {
        bv_masks(i as u64);
    }
}

/// The squares of each named board mask.
pub broadcast group group_mask_squares {
    lemma_a_file_squares,
    lemma_ab_file_squares,
    lemma_h_file_squares,
    lemma_gh_file_squares,
    lemma_rank_4_squares,
    lemma_rank_5_squares,
    lemma_rank_1_8_squares,
    lemma_wk_empty_squares,
    lemma_wq_empty_squares,
    lemma_bk_empty_squares,
    lemma_bq_empty_squares,
}

} // verus!
