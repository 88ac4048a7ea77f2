use vstd::prelude::*;
use crate::bitboard::{squares_of, squares_spec, pop_count, pop_count_spec, lemma_squares_where, bit_set};
use crate::board::Board;
use crate::types::{Color, PieceType, opponent};

verus! {

/// Material values in centipawns.
pub const PAWN_VALUE: i32 = 100;
pub const KNIGHT_VALUE: i32 = 320;
pub const BISHOP_VALUE: i32 = 330;
pub const ROOK_VALUE: i32 = 500;
pub const QUEEN_VALUE: i32 = 900;
pub const KING_VALUE: i32 = 20000;

/// Pawn piece-square table, from White's side (a1 first).
pub const PAWN_PST: [i32; 64] = [
    0, 0, 0, 0, 0, 0, 0, 0,
    50, 50, 50, 50, 50, 50, 50, 50,
    10, 10, 20, 30, 30, 20, 10, 10,
    5, 5, 10, 25, 25, 10, 5, 5,
    0, 0, 0, 20, 20, 0, 0, 0,
    5, -5, -10, 0, 0, -10, -5, 5,
    5, 10, 10, -20, -20, 10, 10, 5,
    0, 0, 0, 0, 0, 0, 0, 0,
];

/// Knight piece-square table, from White's side (a1 first).
pub const KNIGHT_PST: [i32; 64] = [
    -50, -40, -30, -30, -30, -30, -40, -50,
    -40, -20, 0, 0, 0, 0, -20, -40,
    -30, 0, 10, 15, 15, 10, 0, -30,
    -30, 5, 15, 20, 20, 15, 5, -30,
    -30, 0, 15, 20, 20, 15, 0, -30,
    -30, 5, 10, 15, 15, 10, 5, -30,
    -40, -20, 0, 5, 5, 0, -20, -40,
    -50, -40, -30, -30, -30, -30, -40, -50,
];

/// Bishop piece-square table, from White's side (a1 first).
pub const BISHOP_PST: [i32; 64] = [
    -20, -10, -10, -10, -10, -10, -10, -20,
    -10, 0, 0, 0, 0, 0, 0, -10,
    -10, 0, 5, 10, 10, 5, 0, -10,
    -10, 5, 5, 10, 10, 5, 5, -10,
    -10, 0, 10, 10, 10, 10, 0, -10,
    -10, 10, 10, 10, 10, 10, 10, -10,
    -10, 5, 0, 0, 0, 0, 5, -10,
    -20, -10, -10, -10, -10, -10, -10, -20,
];

pub proof fn bv_mirror(square: u8)
    by (bit_vector)
    requires
        square < 64,
    ensures
        square ^ 56u8 < 64,
        (square ^ 56u8) == (7 - square / 8) * 8 + square % 8,
{
}

/// The same square seen from Black's side: the rank flipped, the file kept.
pub open spec fn mirror_spec(square: u8) -> int {
    (square ^ 56u8) as int
}

/// The square mirrored vertically, for looking up Black's pieces in White's tables.
fn mirror_square(square: u8) -> (r: usize)
    requires
        square < 64,
    ensures
        r == mirror_spec(square),
        r < 64,
        r == (7 - square / 8) * 8 + square % 8,
{
    proof {
        bv_mirror(square);
    }
    (square ^ 56) as usize
}

/// The sum of the table entries of the squares (mirrored when `mirror`).
pub open spec fn pst_total(squares: Seq<u8>, table: [i32; 64], mirror: bool) -> int
    decreases squares.len(),
{
    if squares.len() == 0 {
        0
    } else {
        pst_total(squares.drop_last(), table, mirror) + table[if mirror {
            mirror_spec(squares.last())
        } else {
            squares.last() as int
        }] as int
    }
}

/// The table entries lie within -50..=50.
pub open spec fn pst_bounded(table: [i32; 64]) -> bool {
    forall|i: int| 0 <= i < 64 ==> -50 <= #[trigger] table[i] <= 50
}

/// Sums the table entries of the squares of `bb` (mirrored when `mirror`).
fn pst_sum(bb: u64, table: &[i32; 64], mirror: bool) -> (r: i32)
    requires
        pst_bounded(*table),
    ensures
        r == pst_total(squares_spec(bb), *table, mirror),
        -3200 <= r <= 3200,
{
    let squares = squares_of(bb);
    proof {
        lemma_squares_where(|t: int| bit_set(bb, t), 64);
    }
    let mut total: i32 = 0;
    let mut k: usize = 0;
    while k < squares.len()
        invariant
            k <= squares.len() <= 64,
            squares@ == squares_spec(bb),
            forall|j: int| 0 <= j < squares@.len() ==> #[trigger] squares@[j] < 64,
            pst_bounded(*table),
            total == pst_total(squares@.take(k as int), *table, mirror),
            -50 * k <= total <= 50 * k,
        decreases squares.len() - k,
    {
        let square = squares[k];
        let index = if mirror {
            mirror_square(square)
        } else {
            square as usize
        };
        proof {
            assert(squares@.take(k + 1).drop_last() =~= squares@.take(k as int));
        }
        total = total + table[index];
        k += 1;
    }
    proof {
        assert(squares@.take(squares@.len() as int) =~= squares@);
    }
    total
}

/// The material of color `c` in centipawns (kings not counted).
pub open spec fn material(b: Board, c: Color) -> int {
    if c == Color::White {
        (pop_count_spec(b.white_pawns) * 100 + pop_count_spec(b.white_knights) * 320
            + pop_count_spec(b.white_bishops) * 330 + pop_count_spec(b.white_rooks) * 500
            + pop_count_spec(b.white_queens) * 900) as int
    } else {
        (pop_count_spec(b.black_pawns) * 100 + pop_count_spec(b.black_knights) * 320
            + pop_count_spec(b.black_bishops) * 330 + pop_count_spec(b.black_rooks) * 500
            + pop_count_spec(b.black_queens) * 900) as int
    }
}

/// The static evaluation from White's side: material difference plus the pawn, knight and
/// bishop table entries of White's pieces minus those of Black's pieces (mirrored).
pub open spec fn white_score(b: Board) -> int {
    material(b, Color::White) - material(b, Color::Black) + pst_total(
        squares_spec(b.white_pawns),
        PAWN_PST,
        false,
    ) - pst_total(squares_spec(b.black_pawns), PAWN_PST, true) + pst_total(
        squares_spec(b.white_knights),
        KNIGHT_PST,
        false,
    ) - pst_total(squares_spec(b.black_knights), KNIGHT_PST, true) + pst_total(
        squares_spec(b.white_bishops),
        BISHOP_PST,
        false,
    ) - pst_total(squares_spec(b.black_bishops), BISHOP_PST, true)
}

/// The static evaluation from the side to move's point of view.
pub open spec fn evaluate_spec(b: Board) -> int {
    if b.active_color == Color::White {
        white_score(b)
    } else {
        -white_score(b)
    }
}

/// The evaluation is from the side to move's point of view: the same pieces with the other
/// side to move evaluate to the negated score.
pub proof fn lemma_evaluate_side_to_move(b: Board)
    ensures
        evaluate_spec(Board { active_color: opponent(b.active_color), ..b }) == -evaluate_spec(b),
{
}

/// Evaluates the position for the side to move (see `evaluate_spec`).
pub fn evaluate(board: &Board) -> (r: i32)
    ensures
        r == evaluate_spec(*board),
{
    proof {
        assert(pst_bounded(PAWN_PST));
        assert(pst_bounded(KNIGHT_PST));
        assert(pst_bounded(BISHOP_PST));
    }
    let mut score: i32 = 0;
    let white_material = (pop_count(board.white_pawns) as i32 * PAWN_VALUE) + (pop_count(
        board.white_knights,
    ) as i32 * KNIGHT_VALUE) + (pop_count(board.white_bishops) as i32 * BISHOP_VALUE) + (
    pop_count(board.white_rooks) as i32 * ROOK_VALUE) + (pop_count(board.white_queens) as i32
        * QUEEN_VALUE);
    let black_material = (pop_count(board.black_pawns) as i32 * PAWN_VALUE) + (pop_count(
        board.black_knights,
    ) as i32 * KNIGHT_VALUE) + (pop_count(board.black_bishops) as i32 * BISHOP_VALUE) + (
    pop_count(board.black_rooks) as i32 * ROOK_VALUE) + (pop_count(board.black_queens) as i32
        * QUEEN_VALUE);
    score = score + (white_material - black_material);
    score = score + pst_sum(board.white_pawns, &PAWN_PST, false);
    score = score - pst_sum(board.black_pawns, &PAWN_PST, true);
    score = score + pst_sum(board.white_knights, &KNIGHT_PST, false);
    score = score - pst_sum(board.black_knights, &KNIGHT_PST, true);
    score = score + pst_sum(board.white_bishops, &BISHOP_PST, false);
    score = score - pst_sum(board.black_bishops, &BISHOP_PST, true);
    if board.active_color == Color::White {
        score
    } else {
        -score
    }
}

/// The value of a piece kind in centipawns.
pub open spec fn piece_value(piece_type: PieceType) -> i32 {
    match piece_type {
        PieceType::Pawn => PAWN_VALUE,
        PieceType::Knight => KNIGHT_VALUE,
        PieceType::Bishop => BISHOP_VALUE,
        PieceType::Rook => ROOK_VALUE,
        PieceType::Queen => QUEEN_VALUE,
        PieceType::King => KING_VALUE,
    }
}

/// The value of a piece kind in centipawns.
pub fn get_piece_value(piece_type: PieceType) -> (r: i32)
    ensures
        r == piece_value(piece_type),
{
    match piece_type {
        PieceType::Pawn => PAWN_VALUE,
        PieceType::Knight => KNIGHT_VALUE,
        PieceType::Bishop => BISHOP_VALUE,
        PieceType::Rook => ROOK_VALUE,
        PieceType::Queen => QUEEN_VALUE,
        PieceType::King => KING_VALUE,
    }
}

} // verus!
