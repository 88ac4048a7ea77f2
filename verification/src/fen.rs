use vstd::prelude::*;
use vstd::std_specs::bits::{u64_trailing_zeros, axiom_u64_trailing_zeros};
use crate::bitboard::{bit_set, group_bits, lemma_test_bit, lemma_single_bit};
use crate::board::Board;
use crate::types::Color;

verus! {

/// Appends `c` to `s` (`String::push`).
#[verifier::external_body]
pub(crate) fn push_char(s: &mut String, c: char)
    ensures
        final(s)@ == old(s)@.push(c),
{
    s.push(c);
}

/// The FEN letter of the piece on `sq`, looked up in the order P, p, N, n, B, b, R, r, Q, q,
/// K, k.
pub open spec fn piece_char(b: Board, sq: int) -> Option<char> {
    if bit_set(b.white_pawns, sq) {
        Some('P')
    } else if bit_set(b.black_pawns, sq) {
        Some('p')
    } else if bit_set(b.white_knights, sq) {
        Some('N')
    } else if bit_set(b.black_knights, sq) {
        Some('n')
    } else if bit_set(b.white_bishops, sq) {
        Some('B')
    } else if bit_set(b.black_bishops, sq) {
        Some('b')
    } else if bit_set(b.white_rooks, sq) {
        Some('R')
    } else if bit_set(b.black_rooks, sq) {
        Some('r')
    } else if bit_set(b.white_queens, sq) {
        Some('Q')
    } else if bit_set(b.black_queens, sq) {
        Some('q')
    } else if bit_set(b.white_king, sq) {
        Some('K')
    } else if bit_set(b.black_king, sq) {
        Some('k')
    } else {
        None
    }
}

/// The decimal digit character of `n` (0..9).
pub open spec fn digit_char(n: int) -> char {
    (48 + n) as char
}

/// The FEN text of the squares of `rank` from `file` on, given a run of `empty` empty squares
/// before them: each piece letter, with each run of empty squares written as its length.
pub open spec fn row_text(b: Board, rank: int, file: int, empty: int) -> Seq<char>
    decreases 8 - file,
{
    if file >= 8 {
        if empty > 0 {
            seq![digit_char(empty)]
        } else {
            Seq::empty()
        }
    } else {
        match piece_char(b, rank * 8 + file) {
            Some(c) => (if empty > 0 {
                seq![digit_char(empty)]
            } else {
                Seq::empty()
            }) + seq![c] + row_text(b, rank, file + 1, 0),
            None => row_text(b, rank, file + 1, empty + 1),
        }
    }
}

/// The piece placement field from `rank` down to the first rank, ranks separated by '/'.
pub open spec fn placement_text(b: Board, rank: int) -> Seq<char>
    decreases rank,
{
    if rank <= 0 {
        row_text(b, 0, 0, 0)
    } else {
        row_text(b, rank, 0, 0) + seq!['/'] + placement_text(b, rank - 1)
    }
}

/// The castling field: '-' when no right is held, otherwise the held rights among K, Q, k, q.
pub open spec fn castling_text(rights: u8) -> Seq<char> {
    if rights == 0 {
        seq!['-']
    } else {
        (if rights & 1 != 0 {
            seq!['K']
        } else {
            Seq::empty()
        }) + (if rights & 2 != 0 {
            seq!['Q']
        } else {
            Seq::empty()
        }) + (if rights & 4 != 0 {
            seq!['k']
        } else {
            Seq::empty()
        }) + (if rights & 8 != 0 {
            seq!['q']
        } else {
            Seq::empty()
        })
    }
}

/// The en-passant field: '-' when there is no target, otherwise the file letter and rank digit
/// of its lowest square.
pub open spec fn en_passant_text(ep: u64) -> Seq<char> {
    if ep == 0 {
        seq!['-']
    } else {
        let idx = u64_trailing_zeros(ep) as int;
        seq![(97 + idx % 8) as char, (49 + idx / 8) as char]
    }
}

/// The decimal representation of `n`, without leading zeros.
pub open spec fn decimal_text(n: nat) -> Seq<char>
    decreases n,
{
    if n < 10 {
        seq![digit_char(n as int)]
    } else {
        decimal_text(n / 10) + seq![digit_char((n % 10) as int)]
    }
}

/// The FEN text of a position: placement, side to move, castling rights, en-passant target,
/// half-move clock and move number, separated by spaces.
pub open spec fn fen_text(b: Board) -> Seq<char> {
    placement_text(b, 7) + seq![' '] + seq![
        if b.active_color == Color::White {
            'w'
        } else {
            'b'
        },
    ] + seq![' '] + castling_text(b.castling_rights) + seq![' '] + en_passant_text(
        b.en_passant_target,
    ) + seq![' '] + decimal_text(b.half_move_clock as nat) + seq![' '] + decimal_text(
        b.full_move_number as nat,
    )
}

/// Appends the decimal representation of `n`.
pub(crate) fn push_decimal(s: &mut String, n: u64)
    ensures
        final(s)@ == old(s)@ + decimal_text(n as nat),
    decreases n,
{
    if n >= 10 {
        push_decimal(s, n / 10);
    }
    push_char(s, ((n % 10) as u8 + 48u8) as char);
    proof {
        assert(final(s)@ =~= old(s)@ + decimal_text(n as nat)) by {
            reveal_with_fuel(decimal_text, 2);
        }
    }
}

/// The piece letter of `square`, if any (see `piece_char`).
fn piece_char_at(board: &Board, square: u64) -> (r: Option<char>)
    requires
        square < 64,
    ensures
        r == piece_char(*board, square as int),
{
    broadcast use group_bits;

    let bit = 1u64 << square;
    proof {
        lemma_test_bit(board.white_pawns, square);
        lemma_test_bit(board.black_pawns, square);
        lemma_test_bit(board.white_knights, square);
        lemma_test_bit(board.black_knights, square);
        lemma_test_bit(board.white_bishops, square);
        lemma_test_bit(board.black_bishops, square);
        lemma_test_bit(board.white_rooks, square);
        lemma_test_bit(board.black_rooks, square);
        lemma_test_bit(board.white_queens, square);
        lemma_test_bit(board.black_queens, square);
        lemma_test_bit(board.white_king, square);
        lemma_test_bit(board.black_king, square);
    }
    if (board.white_pawns & bit) != 0 {
        Some('P')
    } else if (board.black_pawns & bit) != 0 {
        Some('p')
    } else if (board.white_knights & bit) != 0 {
        Some('N')
    } else if (board.black_knights & bit) != 0 {
        Some('n')
    } else if (board.white_bishops & bit) != 0 {
        Some('B')
    } else if (board.black_bishops & bit) != 0 {
        Some('b')
    } else if (board.white_rooks & bit) != 0 {
        Some('R')
    } else if (board.black_rooks & bit) != 0 {
        Some('r')
    } else if (board.white_queens & bit) != 0 {
        Some('Q')
    } else if (board.black_queens & bit) != 0 {
        Some('q')
    } else if (board.white_king & bit) != 0 {
        Some('K')
    } else if (board.black_king & bit) != 0 {
        Some('k')
    } else {
        None
    }
}

/// Appends the FEN text of one rank (see `row_text`).
fn push_rank(fen: &mut String, board: &Board, rank: u64)
    requires
        rank < 8,
    ensures
        final(fen)@ == old(fen)@ + row_text(*board, rank as int, 0, 0),
{
    let ghost b = *board;
    let ghost row_start = fen@;
    let mut empty_count: u8 = 0;
    let mut file: u64 = 0;
    while file < 8
        invariant
            rank < 8,
            file <= 8,
            empty_count <= file,
            b == *board,
            fen@.len() >= row_start.len(),
            fen@.subrange(row_start.len() as int, fen@.len() as int) + row_text(
                b,
                rank as int,
                file as int,
                empty_count as int,
            ) == row_text(b, rank as int, 0, 0),
            fen@.subrange(0, row_start.len() as int) == row_start,
        decreases 8 - file,
    {
        let square_index = rank * 8 + file;
        let ghost before = fen@;
        match piece_char_at(board, square_index) {
            Some(c) => {
                if empty_count > 0 {
                    push_char(fen, (empty_count + 48u8) as char);
                    empty_count = 0;
                }
                push_char(fen, c);
            },
            None => {
                empty_count = empty_count + 1;
            },
        }
        proof {
            assert(fen@.subrange(0, row_start.len() as int) =~= row_start);
            let emitted = before.subrange(row_start.len() as int, before.len() as int);
            let now = fen@.subrange(row_start.len() as int, fen@.len() as int);
            assert(now =~= emitted + fen@.subrange(before.len() as int, fen@.len() as int));
        }
        file = file + 1;
    }
    let ghost before = fen@;
    if empty_count > 0 {
        push_char(fen, (empty_count + 48u8) as char);
    }
    proof {
        assert(fen@.subrange(row_start.len() as int, fen@.len() as int) =~= before.subrange(
            row_start.len() as int,
            before.len() as int,
        ) + row_text(b, rank as int, 8, empty_count as int));
        assert(fen@ =~= row_start + fen@.subrange(row_start.len() as int, fen@.len() as int));
    }
}

/// Appends the castling field (see `castling_text`).
fn push_castling(fen: &mut String, rights: u8)
    ensures
        final(fen)@ == old(fen)@ + castling_text(rights),
{
    let ghost start = fen@;
    if rights == 0 {
        push_char(fen, '-');
    } else {
        if (rights & 0b0001) != 0 {
            push_char(fen, 'K');
        }
        if (rights & 0b0010) != 0 {
            push_char(fen, 'Q');
        }
        if (rights & 0b0100) != 0 {
            push_char(fen, 'k');
        }
        if (rights & 0b1000) != 0 {
            push_char(fen, 'q');
        }
    }
    assert(fen@ =~= start + castling_text(rights));
}

/// Appends the en-passant field (see `en_passant_text`).
fn push_en_passant(fen: &mut String, ep: u64)
    ensures
        final(fen)@ == old(fen)@ + en_passant_text(ep),
{
    let ghost start = fen@;
    if ep == 0 {
        push_char(fen, '-');
    } else {
        proof {
            axiom_u64_trailing_zeros(ep);
        }
        let idx = ep.trailing_zeros();
        let file = (idx % 8) as u8;
        let rank = (idx / 8) as u8;
        push_char(fen, (97u8 + file) as char);
        push_char(fen, (49u8 + rank) as char);
    }
    assert(fen@ =~= start + en_passant_text(ep));
}

impl Board {
    /// The FEN text of the position (see `fen_text`).
    pub fn to_fen(&self) -> (r: String)
        ensures
            r@ == fen_text(*self),
    {
        let ghost b = *self;
        let mut fen = String::new();
        let mut rank_plus: u64 = 8;
        while rank_plus > 0
            invariant
                rank_plus <= 8,
                b == *self,
                fen@ + (if rank_plus > 0 {
                    placement_text(b, rank_plus - 1)
                } else {
                    Seq::empty()
                }) == placement_text(b, 7),
            decreases rank_plus,
        {
            let rank = rank_plus - 1;
            let ghost row_start = fen@;
            push_rank(&mut fen, self, rank);
            if rank > 0 {
                push_char(&mut fen, '/');
            }
            proof {
                if rank > 0 {
                    assert(fen@ + placement_text(b, rank - 1) =~= row_start + placement_text(
                        b,
                        rank as int,
                    ));
                } else {
                    assert(fen@ =~= row_start + placement_text(b, 0));
                }
            }
            rank_plus = rank;
        }
        proof {
            assert(fen@ =~= placement_text(b, 7));
        }
        push_char(&mut fen, ' ');
        match self.active_color {
            Color::White => push_char(&mut fen, 'w'),
            Color::Black => push_char(&mut fen, 'b'),
        }
        push_char(&mut fen, ' ');
        push_castling(&mut fen, self.castling_rights);
        push_char(&mut fen, ' ');
        push_en_passant(&mut fen, self.en_passant_target);
        push_char(&mut fen, ' ');
        push_decimal(&mut fen, self.half_move_clock as u64);
        push_char(&mut fen, ' ');
        push_decimal(&mut fen, self.full_move_number as u64);
        proof {
            assert(fen@ =~= fen_text(b));
        }
        fen
    }
}

} // verus!
