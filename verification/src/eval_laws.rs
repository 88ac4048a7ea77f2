use vstd::prelude::*;
use crate::bitboard::{
    bit_set, count_below, squares_spec, squares_where, bb_from, lemma_bb_from_bits, rank_of,
    file_of, group_bits, pop_count_spec,
};
use crate::eval::{
    pst_total, mirror_spec, bv_mirror, material, white_score, evaluate_spec, piece_value,
    PAWN_PST, KNIGHT_PST, BISHOP_PST,
};
use crate::board::{Board, pieces};
use crate::types::{Color, PieceType, opponent};

verus! {

/// The sum of `g` over the squares below `n`.
pub open spec fn sum_upto(g: spec_fn(int) -> int, n: int) -> int
    decreases n,
{
    if n <= 0 {
        0
    } else {
        sum_upto(g, n - 1) + g(n - 1)
    }
}

/// The square on the same file, with the rank counted from the other side of the board.
pub open spec fn flip_square(t: int) -> int {
    (7 - rank_of(t)) * 8 + file_of(t)
}

/// The sum of `g` over rank `r`.
pub open spec fn rank_sum(g: spec_fn(int) -> int, r: int) -> int {
    g(8 * r) + g(8 * r + 1) + g(8 * r + 2) + g(8 * r + 3) + g(8 * r + 4) + g(8 * r + 5) + g(8 * r
        + 6) + g(8 * r + 7)
}

proof fn lemma_sum_rank_step(g: spec_fn(int) -> int, r: int)
    requires
        0 <= r,
    ensures
        sum_upto(g, 8 * r + 8) == sum_upto(g, 8 * r) + rank_sum(g, r),
{
    reveal_with_fuel(sum_upto, 9);
}

proof fn lemma_sum_ranks(g: spec_fn(int) -> int)
    ensures
        sum_upto(g, 64) == rank_sum(g, 0) + rank_sum(g, 1) + rank_sum(g, 2) + rank_sum(g, 3)
            + rank_sum(g, 4) + rank_sum(g, 5) + rank_sum(g, 6) + rank_sum(g, 7),
{
    lemma_sum_rank_step(g, 0);
    lemma_sum_rank_step(g, 1);
    lemma_sum_rank_step(g, 2);
    lemma_sum_rank_step(g, 3);
    lemma_sum_rank_step(g, 4);
    lemma_sum_rank_step(g, 5);
    lemma_sum_rank_step(g, 6);
    lemma_sum_rank_step(g, 7);
}

proof fn lemma_rank_sum_flip(g: spec_fn(int) -> int, r: int)
    requires
        0 <= r < 8,
    ensures
        rank_sum(|t: int| g(flip_square(t)), r) == rank_sum(g, 7 - r),
{
    assert forall|f: int| 0 <= f < 8 implies #[trigger] flip_square(8 * r + f) == 8 * (7 - r) + f by {}
    assert(flip_square(8 * r) == 8 * (7 - r));
    assert(flip_square(8 * r + 1) == 8 * (7 - r) + 1);
    assert(flip_square(8 * r + 2) == 8 * (7 - r) + 2);
    assert(flip_square(8 * r + 3) == 8 * (7 - r) + 3);
    assert(flip_square(8 * r + 4) == 8 * (7 - r) + 4);
    assert(flip_square(8 * r + 5) == 8 * (7 - r) + 5);
    assert(flip_square(8 * r + 6) == 8 * (7 - r) + 6);
    assert(flip_square(8 * r + 7) == 8 * (7 - r) + 7);
}

/// Summing over the board with the ranks turned around gives the same total.
proof fn lemma_sum_flip(g: spec_fn(int) -> int)
    ensures
        sum_upto(|t: int| g(flip_square(t)), 64) == sum_upto(g, 64),
{
    let h = |t: int| g(flip_square(t));
    lemma_sum_ranks(g);
    lemma_sum_ranks(h);
    lemma_rank_sum_flip(g, 0);
    lemma_rank_sum_flip(g, 1);
    lemma_rank_sum_flip(g, 2);
    lemma_rank_sum_flip(g, 3);
    lemma_rank_sum_flip(g, 4);
    lemma_rank_sum_flip(g, 5);
    lemma_rank_sum_flip(g, 6);
    lemma_rank_sum_flip(g, 7);
}

/// Sums of functions that agree below `n` are equal.
proof fn lemma_sum_ext(g1: spec_fn(int) -> int, g2: spec_fn(int) -> int, n: int)
    requires
        forall|t: int| 0 <= t < n ==> #[trigger] g1(t) == g2(t),
    ensures
        sum_upto(g1, n) == sum_upto(g2, n),
    decreases n,
{
    if n > 0 {
        lemma_sum_ext(g1, g2, n - 1);
    }
}

/// The indicator of square `t` in `x`.
pub open spec fn bit_value(x: u64) -> spec_fn(int) -> int {
    |t: int|
        if bit_set(x, t) {
            1int
        } else {
            0int
        }
}

proof fn lemma_count_sum(x: u64, n: int)
    requires
        0 <= n,
    ensures
        count_below(x, n) == sum_upto(bit_value(x), n),
    decreases n,
{
    if n > 0 {
        lemma_count_sum(x, n - 1);
    }
}

/// The table index of square `t`, mirrored when `mirror`.
pub open spec fn table_index(t: int, mirror: bool) -> int {
    if mirror {
        flip_square(t)
    } else {
        t
    }
}

/// The table entries of the squares of `x` (mirrored when `mirror`), square by square.
pub open spec fn table_value(x: u64, table: [i32; 64], mirror: bool) -> spec_fn(int) -> int {
    |t: int|
        if bit_set(x, t) {
            table[table_index(t, mirror)] as int
        } else {
            0int
        }
}

proof fn lemma_pst_sum(x: u64, table: [i32; 64], mirror: bool, n: int)
    requires
        0 <= n <= 64,
    ensures
        pst_total(squares_where(|t: int| bit_set(x, t), n), table, mirror) == sum_upto(
            table_value(x, table, mirror),
            n,
        ),
    decreases n,
{
    if n > 0 {
        lemma_pst_sum(x, table, mirror, n - 1);
        let p = |t: int| bit_set(x, t);
        let prev = squares_where(p, n - 1);
        if p(n - 1) {
            let sq = (n - 1) as u8;
            assert(squares_where(p, n) == prev.push(sq));
            assert(prev.push(sq).drop_last() =~= prev);
            bv_mirror(sq);
            assert(mirror_spec(sq) == flip_square(n - 1));
        }
    }
}

/// `x` with its ranks turned around: square `t` is set exactly when its flipped square is
/// set in `x`.
pub open spec fn flip_bb(x: u64) -> u64 {
    bb_from(|t: int| bit_set(x, flip_square(t)))
}

proof fn lemma_flip_bits(x: u64)
    ensures
        forall|t: int| 0 <= t < 64 ==> #[trigger] bit_set(flip_bb(x), t) == bit_set(x, flip_square(t)),
        forall|t: int| 0 <= t < 64 ==> 0 <= #[trigger] flip_square(t) < 64 && flip_square(
            flip_square(t),
        ) == t,
{
    lemma_bb_from_bits(|t: int| bit_set(x, flip_square(t)));
}

/// Turning the ranks around keeps the number of squares.
proof fn lemma_flip_count(x: u64)
    ensures
        count_below(flip_bb(x), 64) == count_below(x, 64),
{
    lemma_flip_bits(x);
    lemma_count_sum(x, 64);
    lemma_count_sum(flip_bb(x), 64);
    let g = bit_value(x);
    lemma_sum_flip(g);
    lemma_sum_ext(bit_value(flip_bb(x)), |t: int| g(flip_square(t)), 64);
}

/// The unmirrored table sum of the flipped squares is the mirrored table sum of the squares,
/// and the other way round.
proof fn lemma_flip_pst(x: u64, table: [i32; 64], mirror: bool)
    ensures
        pst_total(squares_spec(flip_bb(x)), table, mirror) == pst_total(
            squares_spec(x),
            table,
            !mirror,
        ),
{
    lemma_flip_bits(x);
    lemma_pst_sum(x, table, !mirror, 64);
    lemma_pst_sum(flip_bb(x), table, mirror, 64);
    let g = table_value(x, table, !mirror);
    lemma_sum_flip(g);
    assert forall|t: int| 0 <= t < 64 implies #[trigger] table_value(flip_bb(x), table, mirror)(t)
        == g(flip_square(t)) by {
        assert(table_index(flip_square(t), !mirror) == table_index(t, mirror));
    }
    lemma_sum_ext(table_value(flip_bb(x), table, mirror), |t: int| g(flip_square(t)), 64);
}

/// The position seen from the other side: each piece changes color and moves to the same
/// file on the mirrored rank, the castling rights change sides, and the other side is to
/// move.
pub open spec fn mirror_board(b: Board) -> Board {
    Board {
        white_pawns: flip_bb(b.black_pawns),
        white_knights: flip_bb(b.black_knights),
        white_bishops: flip_bb(b.black_bishops),
        white_rooks: flip_bb(b.black_rooks),
        white_queens: flip_bb(b.black_queens),
        white_king: flip_bb(b.black_king),
        white_occupancy: flip_bb(b.black_occupancy),
        black_pawns: flip_bb(b.white_pawns),
        black_knights: flip_bb(b.white_knights),
        black_bishops: flip_bb(b.white_bishops),
        black_rooks: flip_bb(b.white_rooks),
        black_queens: flip_bb(b.white_queens),
        black_king: flip_bb(b.white_king),
        black_occupancy: flip_bb(b.white_occupancy),
        all_occupancy: flip_bb(b.all_occupancy),
        active_color: opponent(b.active_color),
        castling_rights: ((b.castling_rights & 3u8) << 2u8) | ((b.castling_rights >> 2u8) & 3u8),
        en_passant_target: flip_bb(b.en_passant_target),
        ..b
    }
}

/// The evaluation treats both sides alike: the position seen from the other side, with the
/// other side to move, evaluates the same.
pub proof fn lemma_evaluate_mirror(b: Board)
    ensures
        evaluate_spec(mirror_board(b)) == evaluate_spec(b),
{
    let m = mirror_board(b);
    lemma_flip_count(b.white_pawns);
    lemma_flip_count(b.white_knights);
    lemma_flip_count(b.white_bishops);
    lemma_flip_count(b.white_rooks);
    lemma_flip_count(b.white_queens);
    lemma_flip_count(b.black_pawns);
    lemma_flip_count(b.black_knights);
    lemma_flip_count(b.black_bishops);
    lemma_flip_count(b.black_rooks);
    lemma_flip_count(b.black_queens);
    assert(material(m, Color::White) == material(b, Color::Black));
    assert(material(m, Color::Black) == material(b, Color::White));
    lemma_flip_pst(b.black_pawns, crate::eval::PAWN_PST, false);
    lemma_flip_pst(b.white_pawns, crate::eval::PAWN_PST, true);
    lemma_flip_pst(b.black_knights, crate::eval::KNIGHT_PST, false);
    lemma_flip_pst(b.white_knights, crate::eval::KNIGHT_PST, true);
    lemma_flip_pst(b.black_bishops, crate::eval::BISHOP_PST, false);
    lemma_flip_pst(b.white_bishops, crate::eval::BISHOP_PST, true);
    assert(white_score(m) == -white_score(b));
}

/// `b` with one more piece of color `c` and kind `k`, on square `s`.
pub open spec fn add_piece(b: Board, c: Color, k: PieceType, s: int) -> Board {
    let bit = 1u64 << (s as u64);
    match (c, k) {
        (Color::White, PieceType::Pawn) => Board { white_pawns: b.white_pawns | bit, ..b },
        (Color::White, PieceType::Knight) => Board { white_knights: b.white_knights | bit, ..b },
        (Color::White, PieceType::Bishop) => Board { white_bishops: b.white_bishops | bit, ..b },
        (Color::White, PieceType::Rook) => Board { white_rooks: b.white_rooks | bit, ..b },
        (Color::White, PieceType::Queen) => Board { white_queens: b.white_queens | bit, ..b },
        (Color::White, PieceType::King) => Board { white_king: b.white_king | bit, ..b },
        (Color::Black, PieceType::Pawn) => Board { black_pawns: b.black_pawns | bit, ..b },
        (Color::Black, PieceType::Knight) => Board { black_knights: b.black_knights | bit, ..b },
        (Color::Black, PieceType::Bishop) => Board { black_bishops: b.black_bishops | bit, ..b },
        (Color::Black, PieceType::Rook) => Board { black_rooks: b.black_rooks | bit, ..b },
        (Color::Black, PieceType::Queen) => Board { black_queens: b.black_queens | bit, ..b },
        (Color::Black, PieceType::King) => Board { black_king: b.black_king | bit, ..b },
    }
}

/// The table entry a piece of kind `k` and color `c` on `s` adds to its side's score: the
/// pawn, knight or bishop table, read from the piece's own side of the board; nothing for
/// rooks, queens and kings.
pub open spec fn square_bonus(k: PieceType, c: Color, s: int) -> int {
    let i = table_index(s, c == Color::Black);
    match k {
        PieceType::Pawn => PAWN_PST[i] as int,
        PieceType::Knight => KNIGHT_PST[i] as int,
        PieceType::Bishop => BISHOP_PST[i] as int,
        _ => 0,
    }
}

proof fn lemma_add_bit_count(x: u64, s: int, n: int)
    requires
        0 <= s < 64,
        0 <= n <= 64,
        !bit_set(x, s),
    ensures
        count_below(x | (1u64 << (s as u64)), n) == count_below(x, n) + if n > s {
            1int
        } else {
            0int
        },
    decreases n,
{
    broadcast use group_bits;

    if n > 0 {
        lemma_add_bit_count(x, s, n - 1);
    }
}

proof fn lemma_add_bit_sum(x: u64, s: int, table: [i32; 64], mirror: bool, n: int)
    requires
        0 <= s < 64,
        0 <= n <= 64,
        !bit_set(x, s),
    ensures
        sum_upto(table_value(x | (1u64 << (s as u64)), table, mirror), n) == sum_upto(
            table_value(x, table, mirror),
            n,
        ) + if n > s {
            table[table_index(s, mirror)] as int
        } else {
            0int
        },
    decreases n,
{
    broadcast use group_bits;

    if n > 0 {
        lemma_add_bit_sum(x, s, table, mirror, n - 1);
    }
}

proof fn lemma_add_bit(x: u64, s: int, table: [i32; 64], mirror: bool)
    requires
        0 <= s < 64,
        !bit_set(x, s),
    ensures
        pop_count_spec(x | (1u64 << (s as u64))) == pop_count_spec(x) + 1,
        pst_total(squares_spec(x | (1u64 << (s as u64))), table, mirror) == pst_total(
            squares_spec(x),
            table,
            mirror,
        ) + table[table_index(s, mirror)] as int,
{
    lemma_add_bit_count(x, s, 64);
    lemma_add_bit_sum(x, s, table, mirror, 64);
    lemma_pst_sum(x, table, mirror, 64);
    lemma_pst_sum(x | (1u64 << (s as u64)), table, mirror, 64);
}

/// Every piece counts at its value: putting one more pawn, knight, bishop, rook or queen of
/// either side on a square where that side has none of that kind changes the evaluation by
/// the piece's value (100, 320, 330, 500, 900) plus its table entry, in favour of the side
/// the piece belongs to.
pub proof fn lemma_evaluate_add_piece(b: Board, c: Color, k: PieceType, s: int)
    requires
        0 <= s < 64,
        k != PieceType::King,
        !bit_set(pieces(b, c, k), s),
    ensures
        evaluate_spec(add_piece(b, c, k, s)) == if c == b.active_color {
            evaluate_spec(b) + piece_value(k) + square_bonus(k, c, s)
        } else {
            evaluate_spec(b) - piece_value(k) - square_bonus(k, c, s)
        },
{
    let x = pieces(b, c, k);
    let mirror = c == Color::Black;
    let table = match k {
        PieceType::Pawn => PAWN_PST,
        PieceType::Knight => KNIGHT_PST,
        _ => BISHOP_PST,
    };
    lemma_add_bit(x, s, table, mirror);
    let a = add_piece(b, c, k, s);
    let d = piece_value(k) + square_bonus(k, c, s);
    if c == Color::White {
        assert(material(a, Color::Black) == material(b, Color::Black));
        assert(material(a, Color::White) == material(b, Color::White) + piece_value(k));
        assert(white_score(a) == white_score(b) + d);
    } else {
        assert(material(a, Color::White) == material(b, Color::White));
        assert(material(a, Color::Black) == material(b, Color::Black) + piece_value(k));
        assert(white_score(a) == white_score(b) - d);
    }
}

} // verus!
