use vstd::prelude::*;
use crate::attacks::{get_king_attacks, get_knight_attacks, knight_step, king_step, abs};
use crate::bitboard::{
    bit_set, group_bits, lemma_single_bit, lemma_zero_iff_empty, rank_of, file_of, pop_count,
    pop_count_spec,
};
use vstd::std_specs::bits::{u64_trailing_zeros, axiom_u64_trailing_zeros};
use crate::constants::{A_FILE, H_FILE, RANK_1_8, group_mask_squares};
use crate::magics::{get_bishop_attacks, get_rook_attacks, bishop_attack, rook_attack};
use crate::types::{Color, PieceType, opponent};

verus! {

broadcast use group_bits, group_mask_squares;

/// A chess position as twelve piece bitboards plus derived occupancies and game state.
#[derive(Debug, Clone, Copy, PartialEq, Eq, Structural)]
pub struct Board {
    pub white_pawns: u64,
    pub white_knights: u64,
    pub white_bishops: u64,
    pub white_rooks: u64,
    pub white_queens: u64,
    pub white_king: u64,
    pub white_occupancy: u64,
    pub black_pawns: u64,
    pub black_knights: u64,
    pub black_bishops: u64,
    pub black_rooks: u64,
    pub black_queens: u64,
    pub black_king: u64,
    pub black_occupancy: u64,
    pub all_occupancy: u64,
    pub active_color: Color,
    pub castling_rights: u8,
    pub en_passant_target: u64,
    pub half_move_clock: u8,
    pub full_move_number: u16,
}

/// The bitboard of the pieces of color `c` and kind `k`.
pub open spec fn pieces(b: Board, c: Color, k: PieceType) -> u64 {
    match c {
        Color::White => match k {
            PieceType::Pawn => b.white_pawns,
            PieceType::Knight => b.white_knights,
            PieceType::Bishop => b.white_bishops,
            PieceType::Rook => b.white_rooks,
            PieceType::Queen => b.white_queens,
            PieceType::King => b.white_king,
        },
        Color::Black => match k {
            PieceType::Pawn => b.black_pawns,
            PieceType::Knight => b.black_knights,
            PieceType::Bishop => b.black_bishops,
            PieceType::Rook => b.black_rooks,
            PieceType::Queen => b.black_queens,
            PieceType::King => b.black_king,
        },
    }
}

/// The union of the six piece bitboards of color `c`.
pub open spec fn color_union(b: Board, c: Color) -> u64 {
    pieces(b, c, PieceType::Pawn) | pieces(b, c, PieceType::Knight) | pieces(b, c, PieceType::Bishop)
        | pieces(b, c, PieceType::Rook) | pieces(b, c, PieceType::Queen) | pieces(
        b,
        c,
        PieceType::King,
    )
}

/// The kind of the piece of color `c` on `sq`, looked up in the order pawn, knight, bishop,
/// rook, queen, king.
pub open spec fn piece_at(b: Board, sq: int, c: Color) -> Option<PieceType> {
    if bit_set(pieces(b, c, PieceType::Pawn), sq) {
        Some(PieceType::Pawn)
    } else if bit_set(pieces(b, c, PieceType::Knight), sq) {
        Some(PieceType::Knight)
    } else if bit_set(pieces(b, c, PieceType::Bishop), sq) {
        Some(PieceType::Bishop)
    } else if bit_set(pieces(b, c, PieceType::Rook), sq) {
        Some(PieceType::Rook)
    } else if bit_set(pieces(b, c, PieceType::Queen), sq) {
        Some(PieceType::Queen)
    } else if bit_set(pieces(b, c, PieceType::King), sq) {
        Some(PieceType::King)
    } else {
        None
    }
}

/// A pawn of color `c` on `p` attacks `t`: one rank forward and one file aside.
pub open spec fn pawn_attack(c: Color, p: int, t: int) -> bool {
    &&& abs(file_of(t) - file_of(p)) == 1
    &&& rank_of(t) == rank_of(p) + if c == Color::White {
        1int
    } else {
        -1int
    }
}

/// The piece of color `c` on `p` attacks `sq`; sliders are traced from `sq` to `p`
/// through the board's recorded occupancy.
pub open spec fn attacks_from(b: Board, c: Color, p: int, sq: int) -> bool {
    ||| bit_set(pieces(b, c, PieceType::Pawn), p) && pawn_attack(c, p, sq)
    ||| bit_set(pieces(b, c, PieceType::Knight), p) && knight_step(p, sq)
    ||| (bit_set(pieces(b, c, PieceType::Bishop), p) || bit_set(pieces(b, c, PieceType::Queen), p))
        && bishop_attack(sq, b.all_occupancy, p)
    ||| (bit_set(pieces(b, c, PieceType::Rook), p) || bit_set(pieces(b, c, PieceType::Queen), p))
        && rook_attack(sq, b.all_occupancy, p)
    ||| bit_set(pieces(b, c, PieceType::King), p) && king_step(p, sq)
}

/// Some piece of color `attacker` attacks `sq`.
pub open spec fn square_attacked(b: Board, sq: int, attacker: Color) -> bool {
    exists|p: int| 0 <= p < 64 && #[trigger] attacks_from(b, attacker, p, sq)
}

/// A nonzero bitboard has a set square.
pub proof fn lemma_nonzero_witness(a: u64) -> (p: int)
    requires
        a != 0,
    ensures
        0 <= p < 64,
        bit_set(a, p),
{
    lemma_zero_iff_empty(a);
    choose|p: int| 0 <= p < 64 && bit_set(a, p)
}

proof fn lemma_pawn_offsets(sq: int, p: int)
    requires
        0 <= sq < 64,
        0 <= p < 64,
    ensures
        pawn_attack(Color::White, p, sq) <==> ((p == sq - 9 && sq % 8 != 0) || (p == sq - 7 && sq
            % 8 != 7)),
        pawn_attack(Color::Black, p, sq) <==> ((p == sq + 7 && sq % 8 != 0) || (p == sq + 9 && sq
            % 8 != 7)),
{
    assert(sq == 8 * (sq / 8) + sq % 8);
    assert(p == 8 * (p / 8) + p % 8);
}

/// A plausible position: one king per side, no pawn on the first or last rank, at most
/// eight pawns per side, the side not to move is not in check, and an en-passant target lies
/// on the third or sixth rank.
pub open spec fn legal_position(b: Board) -> bool {
    let opponent_king = if b.active_color == Color::White {
        b.black_king
    } else {
        b.white_king
    };
    let ep = u64_trailing_zeros(b.en_passant_target);
    &&& pop_count_spec(b.white_king) == 1
    &&& pop_count_spec(b.black_king) == 1
    &&& b.white_pawns & RANK_1_8 == 0
    &&& b.black_pawns & RANK_1_8 == 0
    &&& pop_count_spec(b.white_pawns) <= 8
    &&& pop_count_spec(b.black_pawns) <= 8
    &&& !square_attacked(b, u64_trailing_zeros(opponent_king) as int, b.active_color)
    &&& b.en_passant_target != 0 ==> (16 <= ep <= 23 || 40 <= ep <= 47)
}

impl Board {
    /// The occupancy bitboards agree with the piece bitboards.
    pub open spec fn wf(&self) -> bool {
        &&& self.white_occupancy == color_union(*self, Color::White)
        &&& self.black_occupancy == color_union(*self, Color::Black)
        &&& self.all_occupancy == self.white_occupancy | self.black_occupancy
    }

    /// The standard starting position, White to move, all castling rights.
    pub fn new() -> (b: Self)
        ensures
            b.wf(),
            b == (Board {
                white_pawns: 0x0000_0000_0000_FF00,
                white_knights: 0x0000_0000_0000_0042,
                white_bishops: 0x0000_0000_0000_0024,
                white_rooks: 0x0000_0000_0000_0081,
                white_queens: 0x0000_0000_0000_0008,
                white_king: 0x0000_0000_0000_0010,
                white_occupancy: 0x0000_0000_0000_FFFF,
                black_pawns: 0x00FF_0000_0000_0000,
                black_knights: 0x4200_0000_0000_0000,
                black_bishops: 0x2400_0000_0000_0000,
                black_rooks: 0x8100_0000_0000_0000,
                black_queens: 0x0800_0000_0000_0000,
                black_king: 0x1000_0000_0000_0000,
                black_occupancy: 0xFFFF_0000_0000_0000,
                all_occupancy: 0xFFFF_0000_0000_FFFF,
                active_color: Color::White,
                castling_rights: 0b1111,
                en_passant_target: 0,
                half_move_clock: 0,
                full_move_number: 1,
            }),
    {
        proof {
            assert(0x0000_0000_0000_FF00u64 | 0x0000_0000_0000_0042u64 | 0x0000_0000_0000_0024u64
                | 0x0000_0000_0000_0081u64 | 0x0000_0000_0000_0008u64 | 0x0000_0000_0000_0010u64
                == 0x0000_0000_0000_FFFFu64 && 0x00FF_0000_0000_0000u64 | 0x4200_0000_0000_0000u64
                | 0x2400_0000_0000_0000u64 | 0x8100_0000_0000_0000u64 | 0x0800_0000_0000_0000u64
                | 0x1000_0000_0000_0000u64 == 0xFFFF_0000_0000_0000u64 && 0x0000_0000_0000_FFFFu64
                | 0xFFFF_0000_0000_0000u64 == 0xFFFF_0000_0000_FFFFu64) by (bit_vector);
        }
        Board {
            white_pawns: 0x0000_0000_0000_FF00,
            white_knights: 0x0000_0000_0000_0042,
            white_bishops: 0x0000_0000_0000_0024,
            white_rooks: 0x0000_0000_0000_0081,
            white_queens: 0x0000_0000_0000_0008,
            white_king: 0x0000_0000_0000_0010,
            white_occupancy: 0x0000_0000_0000_FFFF,
            black_pawns: 0x00FF_0000_0000_0000,
            black_knights: 0x4200_0000_0000_0000,
            black_bishops: 0x2400_0000_0000_0000,
            black_rooks: 0x8100_0000_0000_0000,
            black_queens: 0x0800_0000_0000_0000,
            black_king: 0x1000_0000_0000_0000,
            black_occupancy: 0xFFFF_0000_0000_0000,
            all_occupancy: 0xFFFF_0000_0000_FFFF,
            active_color: Color::White,
            castling_rights: 0b1111,
            en_passant_target: 0,
            half_move_clock: 0,
            full_move_number: 1,
        }
    }

    /// A board with no pieces, White to move, no castling rights, move number 1.
    pub fn empty() -> (b: Self)
        ensures
            b.wf(),
            b == Self::empty_spec(),
    {
        proof {
            assert(0u64 | 0u64 == 0u64) by (bit_vector);
        }
        Board {
            white_pawns: 0,
            white_knights: 0,
            white_bishops: 0,
            white_rooks: 0,
            white_queens: 0,
            white_king: 0,
            white_occupancy: 0,
            black_pawns: 0,
            black_knights: 0,
            black_bishops: 0,
            black_rooks: 0,
            black_queens: 0,
            black_king: 0,
            black_occupancy: 0,
            all_occupancy: 0,
            active_color: Color::White,
            castling_rights: 0,
            en_passant_target: 0,
            half_move_clock: 0,
            full_move_number: 1,
        }
    }

    /// The empty board.
    pub open spec fn empty_spec() -> Board {
        Board {
            white_pawns: 0,
            white_knights: 0,
            white_bishops: 0,
            white_rooks: 0,
            white_queens: 0,
            white_king: 0,
            white_occupancy: 0,
            black_pawns: 0,
            black_knights: 0,
            black_bishops: 0,
            black_rooks: 0,
            black_queens: 0,
            black_king: 0,
            black_occupancy: 0,
            all_occupancy: 0,
            active_color: Color::White,
            castling_rights: 0,
            en_passant_target: 0,
            half_move_clock: 0,
            full_move_number: 1,
        }
    }

    /// Resets the board to the starting position.
    pub fn reset(&mut self)
        ensures
            *final(self) == Board::new_spec(),
            final(self).wf(),
    {
        *self = Self::new();
    }

    /// The starting position.
    pub open spec fn new_spec() -> Board {
        Board {
            white_pawns: 0x0000_0000_0000_FF00,
            white_knights: 0x0000_0000_0000_0042,
            white_bishops: 0x0000_0000_0000_0024,
            white_rooks: 0x0000_0000_0000_0081,
            white_queens: 0x0000_0000_0000_0008,
            white_king: 0x0000_0000_0000_0010,
            white_occupancy: 0x0000_0000_0000_FFFF,
            black_pawns: 0x00FF_0000_0000_0000,
            black_knights: 0x4200_0000_0000_0000,
            black_bishops: 0x2400_0000_0000_0000,
            black_rooks: 0x8100_0000_0000_0000,
            black_queens: 0x0800_0000_0000_0000,
            black_king: 0x1000_0000_0000_0000,
            black_occupancy: 0xFFFF_0000_0000_0000,
            all_occupancy: 0xFFFF_0000_0000_FFFF,
            active_color: Color::White,
            castling_rights: 0b1111,
            en_passant_target: 0,
            half_move_clock: 0,
            full_move_number: 1,
        }
    }

    /// The kind of the piece of color `color` on `square`, if any.
    pub fn piece_type_at(&self, square: u8, color: Color) -> (r: Option<PieceType>)
        requires
            square < 64,
        ensures
            r == piece_at(*self, square as int, color),
    {
        let square_bitboard = 1u64 << (square as u64);
        proof {
            lemma_single_bit(square as u64);
        }
        if color == Color::White {
            if (self.white_pawns & square_bitboard) != 0 {
                return Some(PieceType::Pawn);
            }
            if (self.white_knights & square_bitboard) != 0 {
                return Some(PieceType::Knight);
            }
            if (self.white_bishops & square_bitboard) != 0 {
                return Some(PieceType::Bishop);
            }
            if (self.white_rooks & square_bitboard) != 0 {
                return Some(PieceType::Rook);
            }
            if (self.white_queens & square_bitboard) != 0 {
                return Some(PieceType::Queen);
            }
            if (self.white_king & square_bitboard) != 0 {
                return Some(PieceType::King);
            }
        } else {
            if (self.black_pawns & square_bitboard) != 0 {
                return Some(PieceType::Pawn);
            }
            if (self.black_knights & square_bitboard) != 0 {
                return Some(PieceType::Knight);
            }
            if (self.black_bishops & square_bitboard) != 0 {
                return Some(PieceType::Bishop);
            }
            if (self.black_rooks & square_bitboard) != 0 {
                return Some(PieceType::Rook);
            }
            if (self.black_queens & square_bitboard) != 0 {
                return Some(PieceType::Queen);
            }
            if (self.black_king & square_bitboard) != 0 {
                return Some(PieceType::King);
            }
        }
        None
    }

    /// Whether any piece of color `attacker` attacks `square`.
    pub fn is_square_attacked(&self, square: u8, attacker: Color) -> (r: bool)
        requires
            square < 64,
        ensures
            r == square_attacked(*self, square as int, attacker),
    {
        let ghost sq = square as int;
        let square_bitboard = 1u64 << (square as u64);
        proof {
            lemma_single_bit(square as u64);
        }
        let (pawns, knights, bishops, rooks, queens, king) = if attacker == Color::White {
            (
                self.white_pawns,
                self.white_knights,
                self.white_bishops,
                self.white_rooks,
                self.white_queens,
                self.white_king,
            )
        } else {
            (
                self.black_pawns,
                self.black_knights,
                self.black_bishops,
                self.black_rooks,
                self.black_queens,
                self.black_king,
            )
        };
        let ghost c = attacker;
        assert(pawns == pieces(*self, c, PieceType::Pawn));
        assert(knights == pieces(*self, c, PieceType::Knight));
        assert(bishops == pieces(*self, c, PieceType::Bishop));
        assert(rooks == pieces(*self, c, PieceType::Rook));
        assert(queens == pieces(*self, c, PieceType::Queen));
        assert(king == pieces(*self, c, PieceType::King));
        let pawn_attacks = if attacker == Color::White {
            ((square_bitboard & !A_FILE) >> 9u64) | ((square_bitboard & !H_FILE) >> 7u64)
        } else {
            ((square_bitboard & !A_FILE) << 7u64) | ((square_bitboard & !H_FILE) << 9u64)
        };
        proof {
            assert forall|p: int| 0 <= p < 64 implies (#[trigger] bit_set(pawn_attacks, p)
                <==> pawn_attack(c, p, sq)) by {
                lemma_pawn_offsets(sq, p);
            }
            lemma_zero_iff_empty(pawn_attacks & pawns);
        }
        if (pawn_attacks & pawns) != 0 {
            proof {
                let p = lemma_nonzero_witness(pawn_attacks & pawns);
                assert(attacks_from(*self, c, p, sq));
            }
            return true;
        }
        let knight_attacks = get_knight_attacks(square);
        proof {
            lemma_zero_iff_empty(knight_attacks & knights);
        }
        if (knight_attacks & knights) != 0 {
            proof {
                let p = lemma_nonzero_witness(knight_attacks & knights);
                assert(knight_step(sq, p));
                assert(attacks_from(*self, c, p, sq));
            }
            return true;
        }
        let diagonal_attackers = bishops | queens;
        proof {
            lemma_zero_iff_empty(diagonal_attackers);
        }
        if diagonal_attackers != 0 {
            let diagonal_attacks = get_bishop_attacks(square, self.all_occupancy);
            proof {
                lemma_zero_iff_empty(diagonal_attacks & diagonal_attackers);
            }
            if (diagonal_attacks & diagonal_attackers) != 0 {
                proof {
                    let p = lemma_nonzero_witness(diagonal_attacks & diagonal_attackers);
                    assert(attacks_from(*self, c, p, sq));
                }
                return true;
            }
        }
        let orthogonal_attackers = rooks | queens;
        proof {
            lemma_zero_iff_empty(orthogonal_attackers);
        }
        if orthogonal_attackers != 0 {
            let orthogonal_attacks = get_rook_attacks(square, self.all_occupancy);
            proof {
                lemma_zero_iff_empty(orthogonal_attacks & orthogonal_attackers);
            }
            if (orthogonal_attacks & orthogonal_attackers) != 0 {
                proof {
                    let p = lemma_nonzero_witness(orthogonal_attacks & orthogonal_attackers);
                    assert(attacks_from(*self, c, p, sq));
                }
                return true;
            }
        }
        let king_attacks = get_king_attacks(square);
        proof {
            lemma_zero_iff_empty(king_attacks & king);
        }
        if (king_attacks & king) != 0 {
            proof {
                let p = lemma_nonzero_witness(king_attacks & king);
                assert(king_step(sq, p));
                assert(attacks_from(*self, c, p, sq));
            }
            return true;
        }
        proof {
            assert forall|p: int| 0 <= p < 64 implies !#[trigger] attacks_from(*self, c, p, sq) by {
                assert(!bit_set(pawn_attacks & pawns, p));
                assert(!bit_set(knight_attacks & knights, p));
                assert(!bit_set(king_attacks & king, p));
                assert(!bit_set(diagonal_attackers, p) || bishop_attack(sq, self.all_occupancy, p)
                    == false);
                assert(!bit_set(orthogonal_attackers, p) || rook_attack(sq, self.all_occupancy, p)
                    == false);
            }
        }
        false
    }

    /// Checks the plausibility of the position (see `legal_position`).
    pub fn is_legal(&self) -> (r: bool)
        ensures
            r == legal_position(*self),
    {
        if pop_count(self.white_king) != 1 || pop_count(self.black_king) != 1 {
            return false;
        }
        let rank_1_8_mask: u64 = RANK_1_8;
        if (self.white_pawns & rank_1_8_mask) != 0 || (self.black_pawns & rank_1_8_mask) != 0 {
            return false;
        }
        if pop_count(self.white_pawns) > 8 || pop_count(self.black_pawns) > 8 {
            return false;
        }
        let (opponent_king, active_color) = if self.active_color == Color::White {
            (self.black_king, Color::White)
        } else {
            (self.white_king, Color::Black)
        };
        proof {
            axiom_u64_trailing_zeros(opponent_king);
            lemma_zero_iff_empty(opponent_king);
            if opponent_king == 0 {
                assert(pop_count_spec(opponent_king) == 0) by {
                    lemma_count_zero(opponent_king, 64);
                }
            }
        }
        let opponent_king_square = opponent_king.trailing_zeros() as u8;
        if self.is_square_attacked(opponent_king_square, active_color) {
            return false;
        }
        if self.en_passant_target != 0 {
            let ep_square = self.en_passant_target.trailing_zeros();
            if !(16 <= ep_square && ep_square <= 23) && !(40 <= ep_square && ep_square <= 47) {
                return false;
            }
        }
        true
    }
}

/// The empty bitboard has no set square below any bound.
proof fn lemma_count_zero(b: u64, n: int)
    requires
        b == 0,
        0 <= n <= 64,
    ensures
        crate::bitboard::count_below(b, n) == 0,
    decreases n,
{
    broadcast use group_bits;

    if n > 0 {
        lemma_count_zero(b, n - 1);
    }
}

impl Default for Board {
    /// The starting position.
    fn default() -> (b: Self)
        ensures
            b == Board::new_spec(),
    {
        Board::new()
    }
}

/// Only the king of the side not to move matters for check: a position is plausible exactly
/// when each side has one king, no pawn stands on the first or last rank, neither side has
/// more than eight pawns, an en-passant target lies on the third or sixth rank, and the side
/// to move does not attack the other side's king. Whether the side to move is itself in
/// check plays no part.
pub proof fn lemma_legal_position_check_rule(b: Board)
    ensures
        legal_position(b) <==> (pop_count_spec(b.white_king) == 1 && pop_count_spec(b.black_king)
            == 1 && b.white_pawns & RANK_1_8 == 0 && b.black_pawns & RANK_1_8 == 0
            && pop_count_spec(b.white_pawns) <= 8 && pop_count_spec(b.black_pawns) <= 8 && (
        b.en_passant_target != 0 ==> (16 <= u64_trailing_zeros(b.en_passant_target) <= 23 || 40
            <= u64_trailing_zeros(b.en_passant_target) <= 47)) && !square_attacked(
            b,
            u64_trailing_zeros(pieces(b, opponent(b.active_color), PieceType::King)) as int,
            b.active_color,
        )),
{
}

} // verus!
