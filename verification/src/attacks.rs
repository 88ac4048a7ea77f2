use vstd::prelude::*;
use crate::bitboard::{bit_set, group_bits, lemma_single_bit, rank_of, file_of};
use crate::constants::{A_FILE, AB_FILE, H_FILE, GH_FILE, group_mask_squares};

verus! {

broadcast use group_bits, group_mask_squares;

/// Absolute value.
pub open spec fn abs(x: int) -> int {
    if x < 0 {
        -x
    } else {
        x
    }
}

/// A knight on `s` attacks `t`: one rank and two files apart, or two ranks and one file.
pub open spec fn knight_step(s: int, t: int) -> bool {
    let dr = abs(rank_of(t) - rank_of(s));
    let df = abs(file_of(t) - file_of(s));
    (dr == 1 && df == 2) || (dr == 2 && df == 1)
}

/// A king on `s` attacks `t`: a different square at most one rank and one file away.
pub open spec fn king_step(s: int, t: int) -> bool {
    let dr = abs(rank_of(t) - rank_of(s));
    let df = abs(file_of(t) - file_of(s));
    dr <= 1 && df <= 1 && !(dr == 0 && df == 0)
}

/// The knight targets of `s` written as board-index offsets, excluding wrap-around.
spec fn knight_offset(s: int, t: int) -> bool {
    ||| t == s + 15 && s % 8 != 0
    ||| t == s + 17 && s % 8 != 7
    ||| t == s + 10 && s % 8 < 6
    ||| t == s - 6 && s % 8 < 6
    ||| t == s - 15 && s % 8 != 7
    ||| t == s - 17 && s % 8 != 0
    ||| t == s - 10 && s % 8 > 1
    ||| t == s + 6 && s % 8 > 1
}

/// The king targets of `s` written as board-index offsets, excluding wrap-around.
spec fn king_offset(s: int, t: int) -> bool {
    ||| t == s + 7 && s % 8 != 0
    ||| t == s + 8
    ||| t == s + 9 && s % 8 != 7
    ||| t == s + 1 && s % 8 != 7
    ||| t == s - 7 && s % 8 != 7
    ||| t == s - 8
    ||| t == s - 9 && s % 8 != 0
    ||| t == s - 1 && s % 8 != 0
}

proof fn lemma_knight_offset(s: int, t: int)
    requires
        0 <= s < 64,
        0 <= t < 64,
    ensures
        knight_offset(s, t) == knight_step(s, t),
{
    assert(s == 8 * (s / 8) + s % 8);
    assert(t == 8 * (t / 8) + t % 8);
}

proof fn lemma_king_offset(s: int, t: int)
    requires
        0 <= s < 64,
        0 <= t < 64,
    ensures
        king_offset(s, t) == king_step(s, t),
{
    assert(s == 8 * (s / 8) + s % 8);
    assert(t == 8 * (t / 8) + t % 8);
}

/// The squares attacked by a knight on `square` (the knight mask of that square).
pub fn get_knight_attacks(square: u8) -> (r: u64)
    requires
        square < 64,
    ensures
        forall|t: int| 0 <= t < 64 ==> (#[trigger] bit_set(r, t) <==> knight_step(square as int, t)),
{
    mask_knight_attacks(square)
}

/// The squares attacked by a king on `square` (the king mask of that square).
pub fn get_king_attacks(square: u8) -> (r: u64)
    requires
        square < 64,
    ensures
        forall|t: int| 0 <= t < 64 ==> (#[trigger] bit_set(r, t) <==> king_step(square as int, t)),
{
    mask_king_attacks(square)
}

/// Computes the knight attack set of `square` by shifting its bit in the eight directions,
/// masking out the files that would wrap around the board edge.
pub fn mask_knight_attacks(square: u8) -> (r: u64)
    requires
        square < 64,
    ensures
        forall|t: int| 0 <= t < 64 ==> (#[trigger] bit_set(r, t) <==> knight_step(square as int, t)),
{
    let mut attacks: u64 = 0;
    let bitboard: u64 = 1u64 << (square as u64);
    proof {
        lemma_single_bit(square as u64);
    }
    attacks = attacks | ((bitboard & !A_FILE) << 15u64);
    attacks = attacks | ((bitboard & !H_FILE) << 17u64);
    attacks = attacks | ((bitboard & !GH_FILE) << 10u64);
    attacks = attacks | ((bitboard & !GH_FILE) >> 6u64);
    attacks = attacks | ((bitboard & !H_FILE) >> 15u64);
    attacks = attacks | ((bitboard & !A_FILE) >> 17u64);
    attacks = attacks | ((bitboard & !AB_FILE) >> 10u64);
    attacks = attacks | ((bitboard & !AB_FILE) << 6u64);
    proof {
        assert forall|t: int| 0 <= t < 64 implies (#[trigger] bit_set(attacks, t)
            <==> knight_step(square as int, t)) by {
            lemma_knight_offset(square as int, t);
        }
    }
    attacks
}

/// Computes the king attack set of `square` by shifting its bit in the eight directions.
pub fn mask_king_attacks(square: u8) -> (r: u64)
    requires
        square < 64,
    ensures
        forall|t: int| 0 <= t < 64 ==> (#[trigger] bit_set(r, t) <==> king_step(square as int, t)),
{
    let mut attacks: u64 = 0;
    let bitboard: u64 = 1u64 << (square as u64);
    proof {
        lemma_single_bit(square as u64);
    }
    attacks = attacks | ((bitboard & !A_FILE) << 7u64);
    attacks = attacks | (bitboard << 8u64);
    attacks = attacks | ((bitboard & !H_FILE) << 9u64);
    attacks = attacks | ((bitboard & !H_FILE) << 1u64);
    attacks = attacks | ((bitboard & !H_FILE) >> 7u64);
    attacks = attacks | (bitboard >> 8u64);
    attacks = attacks | ((bitboard & !A_FILE) >> 9u64);
    attacks = attacks | ((bitboard & !A_FILE) >> 1u64);
    proof {
        assert forall|t: int| 0 <= t < 64 implies (#[trigger] bit_set(attacks, t)
            <==> king_step(square as int, t)) by {
            lemma_king_offset(square as int, t);
        }
    }
    attacks
}

/// The knight attack table: entry `s` is the attack set of square `s`.
pub fn generate_all_knight_attacks() -> (table: [u64; 64])
    ensures
        forall|s: int, t: int|
            0 <= s < 64 && 0 <= t < 64 ==> (#[trigger] bit_set(table[s], t) <==> knight_step(s, t)),
{
    let mut table = [0u64; 64];
    let mut square: usize = 0;
    while square < 64
        invariant
            square <= 64,
            forall|s: int, t: int|
                0 <= s < square && 0 <= t < 64 ==> (#[trigger] bit_set(table[s], t)
                    <==> knight_step(s, t)),
        decreases 64 - square,
    {
        table[square] = mask_knight_attacks(square as u8);
        square += 1;
    }
    table
}

/// The king attack table: entry `s` is the attack set of square `s`.
pub fn generate_all_king_attacks() -> (table: [u64; 64])
    ensures
        forall|s: int, t: int|
            0 <= s < 64 && 0 <= t < 64 ==> (#[trigger] bit_set(table[s], t) <==> king_step(s, t)),
{
    let mut table = [0u64; 64];
    let mut square: usize = 0;
    while square < 64
        invariant
            square <= 64,
            forall|s: int, t: int|
                0 <= s < square && 0 <= t < 64 ==> (#[trigger] bit_set(table[s], t)
                    <==> king_step(s, t)),
        decreases 64 - square,
    {
        table[square] = mask_king_attacks(square as u8);
        square += 1;
    }
    table
}

} // verus!
