use vstd::prelude::*;
use crate::board::{Board, color_union};
use crate::bitboard::{group_bits, lemma_single_bit};
use crate::error::{FenError, FenErrorView};
use crate::types::Color;
use vstd::string::StringSliceAdditionalSpecFns;
use vstd::utf8::{
    decode_utf8, encode_utf8_decode_utf8, encode_utf8_valid_utf8, is_char_boundary,
    is_char_boundary_iff_not_is_continuation_byte, is_char_boundary_start_end_of_seq,
    length_of_first_scalar,
};

verus! {

/// ASCII whitespace: space, tab, line feed, form feed, carriage return.
pub open spec fn is_ws(c: u8) -> bool {
    c == 32 || c == 9 || c == 10 || c == 12 || c == 13
}

/// The length of the leading run of non-whitespace bytes.
pub open spec fn word_len(s: Seq<u8>) -> int
    decreases s.len(),
{
    if s.len() == 0 || is_ws(s[0]) {
        0
    } else {
        1 + word_len(s.drop_first())
    }
}

pub proof fn lemma_word_len(s: Seq<u8>)
    ensures
        0 <= word_len(s) <= s.len(),
        s.len() > 0 && !is_ws(s[0]) ==> word_len(s) >= 1,
    decreases s.len(),
{
    if s.len() > 0 {
        lemma_word_len(s.drop_first());
    }
}

/// The whitespace-separated fields of `s`, in order.
pub open spec fn fields(s: Seq<u8>) -> Seq<Seq<u8>>
    decreases s.len(),
{
    if s.len() == 0 {
        Seq::empty()
    } else if is_ws(s[0]) {
        fields(s.drop_first())
    } else {
        proof {
            lemma_word_len(s);
        }
        seq![s.take(word_len(s))] + fields(s.skip(word_len(s)))
    }
}

/// The index of the first '/' of `s`, or its length when there is none.
pub open spec fn slash_index(s: Seq<u8>) -> int
    decreases s.len(),
{
    if s.len() == 0 || s[0] == 47 {
        0
    } else {
        1 + slash_index(s.drop_first())
    }
}

pub proof fn lemma_slash_index(s: Seq<u8>)
    ensures
        0 <= slash_index(s) <= s.len(),
        slash_index(s) < s.len() ==> s[slash_index(s)] == 47,
        forall|j: int| 0 <= j < slash_index(s) ==> s[j] != 47,
    decreases s.len(),
{
    if s.len() > 0 && s[0] != 47 {
        lemma_slash_index(s.drop_first());
        assert forall|j: int| 0 <= j < slash_index(s) implies s[j] != 47 by {
            if j > 0 {
                assert(s[j] == s.drop_first()[j - 1]);
            }
        }
    }
}

/// The pieces of `s` between '/' separators (empty pieces included).
pub open spec fn split_slash(s: Seq<u8>) -> Seq<Seq<u8>>
    decreases s.len(),
{
    proof {
        lemma_slash_index(s);
    }
    if slash_index(s) >= s.len() {
        seq![s]
    } else {
        seq![s.take(slash_index(s))] + split_slash(s.skip(slash_index(s) + 1))
    }
}

/// `c` is an ASCII digit.
pub open spec fn is_digit(c: u8) -> bool {
    48 <= c <= 57
}

/// `c` is an ASCII letter.
pub open spec fn is_alpha(c: u8) -> bool {
    (65 <= c <= 90) || (97 <= c <= 122)
}

/// `b` with the piece of FEN letter `c` added on `sq`; none for a letter that names no piece.
pub open spec fn place_piece(b: Board, c: u8, sq: int) -> Option<Board> {
    let bit = 1u64 << (sq as u64);
    if c == 80 {
        Some(Board { white_pawns: b.white_pawns | bit, ..b })
    } else if c == 112 {
        Some(Board { black_pawns: b.black_pawns | bit, ..b })
    } else if c == 78 {
        Some(Board { white_knights: b.white_knights | bit, ..b })
    } else if c == 110 {
        Some(Board { black_knights: b.black_knights | bit, ..b })
    } else if c == 66 {
        Some(Board { white_bishops: b.white_bishops | bit, ..b })
    } else if c == 98 {
        Some(Board { black_bishops: b.black_bishops | bit, ..b })
    } else if c == 82 {
        Some(Board { white_rooks: b.white_rooks | bit, ..b })
    } else if c == 114 {
        Some(Board { black_rooks: b.black_rooks | bit, ..b })
    } else if c == 81 {
        Some(Board { white_queens: b.white_queens | bit, ..b })
    } else if c == 113 {
        Some(Board { black_queens: b.black_queens | bit, ..b })
    } else if c == 75 {
        Some(Board { white_king: b.white_king | bit, ..b })
    } else if c == 107 {
        Some(Board { black_king: b.black_king | bit, ..b })
    } else {
        None
    }
}

/// Reads the rank text `r` (0-based `rank`) from byte `k` on, the first `file` files done:
/// a digit 1-8 skips that many files, a piece letter fills the next file; going past the
/// eighth file is `TooManyFilesInRank`, and a rank that ends before its eighth file is
/// `InvalidFileCountInRank` (both with the 1-based rank number).
pub open spec fn parse_rank_from(b: Board, r: Seq<u8>, rank: int, k: int, file: int) -> Result<
    Board,
    FenErrorView,
>
    decreases r.len() - k,
{
    if k >= r.len() || k < 0 {
        if file != 8 {
            Err(FenErrorView::InvalidFileCountInRank((rank + 1) as u32))
        } else {
            Ok(b)
        }
    } else {
        let c = r[k];
        if is_digit(c) {
            let n = c - 48;
            if !(1 <= n <= 8) {
                Err(FenErrorView::InvalidEmptySquares(n as u8))
            } else if file + n > 8 {
                Err(FenErrorView::TooManyFilesInRank((rank + 1) as u32))
            } else {
                parse_rank_from(b, r, rank, k + 1, file + n)
            }
        } else if is_alpha(c) {
            if file >= 8 {
                Err(FenErrorView::TooManyFilesInRank((rank + 1) as u32))
            } else {
                match place_piece(b, c, rank * 8 + file) {
                    Some(b2) => parse_rank_from(b2, r, rank, k + 1, file + 1),
                    None => Err(FenErrorView::InvalidCharacter(c as char)),
                }
            }
        } else {
            Err(FenErrorView::InvalidCharacter(c as char))
        }
    }
}

/// Reads the ranks `ranks[i..]`, the first being rank `7 - i`.
pub open spec fn parse_ranks(b: Board, ranks: Seq<Seq<u8>>, i: int) -> Result<Board, FenErrorView>
    decreases ranks.len() - i,
{
    if i >= ranks.len() || i < 0 {
        Ok(b)
    } else {
        match parse_rank_from(b, ranks[i], 7 - i, 0, 0) {
            Ok(b2) => parse_ranks(b2, ranks, i + 1),
            Err(e) => Err(e),
        }
    }
}

/// Reads the placement field into `b`: exactly eight ranks separated by '/', eighth rank first.
pub open spec fn parse_placement(b: Board, s: Seq<u8>) -> Result<Board, FenErrorView> {
    let ranks = split_slash(s);
    if ranks.len() != 8 {
        Err(FenErrorView::InvalidRanksCount(ranks.len() as usize))
    } else {
        parse_ranks(b, ranks, 0)
    }
}

/// The text of the field at bytes `start..end` of `fen`: a whitespace byte or the text's
/// start comes before it, and a whitespace byte or the text's end after it, so the field
/// is whole characters and its text is exactly those characters.
fn field_text(fen: &str, start: usize, end: usize) -> (r: String)
    requires
        start <= end <= fen.spec_bytes().len(),
        start == 0 || is_ws(fen.spec_bytes()[start - 1]),
        end == fen.spec_bytes().len() || is_ws(fen.spec_bytes()[end as int]),
    ensures
        r@ == decode_utf8(fen.spec_bytes().subrange(start as int, end as int)),
{
    broadcast use encode_utf8_valid_utf8, encode_utf8_decode_utf8;

    let ghost s = fen.spec_bytes();
    let tail: &str = if start == 0 {
        assert(s.subrange(0, s.len() as int) =~= s);
        fen
    } else {
        proof {
            is_char_boundary_iff_not_is_continuation_byte(s, start - 1);
        }
        let (_, rest) = fen.split_at(start - 1);
        let ghost rs = rest.spec_bytes();
        proof {
            assert(rs[0] == s[start - 1]);
            assert(length_of_first_scalar(rs) == 1);
            reveal_with_fuel(is_char_boundary, 2);
        }
        let (_, t) = rest.split_at(1);
        assert(t.spec_bytes() =~= s.subrange(start as int, s.len() as int));
        t
    };
    let ghost ts = tail.spec_bytes();
    assert(ts =~= s.subrange(start as int, s.len() as int));
    proof {
        is_char_boundary_start_end_of_seq(ts);
        if end < s.len() {
            assert(ts[end - start] == s[end as int]);
            is_char_boundary_iff_not_is_continuation_byte(ts, end - start);
        }
    }
    let (piece, _) = tail.split_at(end - start);
    assert(piece.spec_bytes() =~= s.subrange(start as int, end as int));
    piece.to_owned()
}

/// Reads the castling field from byte `k` on with the rights gathered so far: K, Q, k, q add
/// their right, '-' ends the field, any other byte is an error.
pub open spec fn parse_castling_from(s: Seq<u8>, k: int, rights: u8) -> Result<u8, FenErrorView>
    decreases s.len() - k,
{
    if k >= s.len() || k < 0 {
        Ok(rights)
    } else {
        let c = s[k];
        if c == 45 {
            Ok(rights)
        } else if c == 75 {
            parse_castling_from(s, k + 1, rights | 1u8)
        } else if c == 81 {
            parse_castling_from(s, k + 1, rights | 2u8)
        } else if c == 107 {
            parse_castling_from(s, k + 1, rights | 4u8)
        } else if c == 113 {
            parse_castling_from(s, k + 1, rights | 8u8)
        } else {
            Err(FenErrorView::InvalidCastlingCharacter(c as char))
        }
    }
}

/// Reads the castling field: "-" is no right, otherwise the letters are read in order.
pub open spec fn parse_castling(s: Seq<u8>) -> Result<u8, FenErrorView> {
    if s == seq![45u8] {
        Ok(0)
    } else {
        parse_castling_from(s, 0, 0)
    }
}

/// Reads the en-passant field: "-" is no target, otherwise a file letter a-h and a rank
/// digit 1-8 name the target square.
pub open spec fn parse_en_passant(s: Seq<u8>) -> Result<u64, FenErrorView> {
    if s == seq![45u8] {
        Ok(0)
    } else if s.len() != 2 || !(97 <= s[0] <= 104) || !(49 <= s[1] <= 56) {
        Err(FenErrorView::InvalidEnPassantTarget(decode_utf8(s)))
    } else {
        Ok(1u64 << (((s[1] - 49) * 8 + (s[0] - 97)) as u64))
    }
}

/// The decimal value of a digit string.
pub open spec fn digits_value(d: Seq<u8>) -> nat
    decreases d.len(),
{
    if d.len() == 0 {
        0
    } else {
        digits_value(d.drop_last()) * 10 + (d.last() - 48) as nat
    }
}

/// Every byte is an ASCII digit.
pub open spec fn all_digits(d: Seq<u8>) -> bool {
    forall|i: int| 0 <= i < d.len() ==> is_digit(#[trigger] d[i])
}

/// Reads an unsigned number as Rust's integer parsing does: an optional '+', then at least
/// one digit and nothing else, with a value of at most `max`.
pub open spec fn parse_unsigned(s: Seq<u8>, max: nat) -> Option<nat> {
    let d = if s.len() > 0 && s[0] == 43 {
        s.drop_first()
    } else {
        s
    };
    if d.len() == 0 || !all_digits(d) || digits_value(d) > max {
        None
    } else {
        Some(digits_value(d))
    }
}

/// `b` with the occupancies recomputed from the pieces.
pub open spec fn with_occupancies(b: Board) -> Board {
    let white = color_union(b, Color::White);
    let black = color_union(b, Color::Black);
    Board { white_occupancy: white, black_occupancy: black, all_occupancy: white | black, ..b }
}

/// Reads the fields after the placement: side to move ("w" or "b"), castling rights,
/// en-passant target, half-move clock (0..=255) and move number (0..=65535).
pub open spec fn parse_state(b: Board, f: Seq<Seq<u8>>) -> Result<Board, FenErrorView> {
    let color = if f[1] == seq![119u8] {
        Some(Color::White)
    } else if f[1] == seq![98u8] {
        Some(Color::Black)
    } else {
        None
    };
    match color {
        None => Err(FenErrorView::InvalidColor(decode_utf8(f[1]))),
        Some(active) => match parse_castling(f[2]) {
            Err(e) => Err(e),
            Ok(rights) => match parse_en_passant(f[3]) {
                Err(e) => Err(e),
                Ok(ep) => match parse_unsigned(f[4], 255) {
                    None => Err(FenErrorView::InvalidHalfMoveClock(decode_utf8(f[4]))),
                    Some(half) => match parse_unsigned(f[5], 65535) {
                        None => Err(FenErrorView::InvalidFullMoveNumber(decode_utf8(f[5]))),
                        Some(full) => Ok(
                            with_occupancies(
                                Board {
                                    active_color: active,
                                    castling_rights: rights,
                                    en_passant_target: ep,
                                    half_move_clock: half as u8,
                                    full_move_number: full as u16,
                                    ..b
                                },
                            ),
                        ),
                    },
                },
            },
        },
    }
}

/// The result of reading a FEN text: its first six whitespace-separated fields are the
/// placement, side to move, castling rights, en-passant target, half-move clock and move
/// number; a missing field, then the placement, then the other fields in order, decide the
/// error.
pub open spec fn parse_fen(s: Seq<u8>) -> Result<Board, FenErrorView> {
    let f = fields(s);
    if f.len() < 1 {
        Err(FenErrorView::MissingField("board"@))
    } else if f.len() < 2 {
        Err(FenErrorView::MissingField("color"@))
    } else if f.len() < 3 {
        Err(FenErrorView::MissingField("castling"@))
    } else if f.len() < 4 {
        Err(FenErrorView::MissingField("en_passant"@))
    } else if f.len() < 5 {
        Err(FenErrorView::MissingField("half_move"@))
    } else if f.len() < 6 {
        Err(FenErrorView::MissingField("full_move"@))
    } else {
        match parse_placement(Board::empty_spec(), f[0]) {
            Err(e) => Err(e),
            Ok(b) => parse_state(b, f),
        }
    }
}

/// ASCII whitespace (see `is_ws`).
fn is_ascii_ws(c: u8) -> (r: bool)
    ensures
        r == is_ws(c),
{
    c == 32 || c == 9 || c == 10 || c == 12 || c == 13
}

proof fn lemma_skip_first(s: Seq<u8>, p: int)
    requires
        0 <= p < s.len(),
    ensures
        s.skip(p).drop_first() == s.skip(p + 1),
        s.skip(p)[0] == s[p],
{
    assert(s.skip(p).drop_first() =~= s.skip(p + 1));
}

proof fn lemma_word_run(s: Seq<u8>, p: int, e: int)
    requires
        0 <= p <= e <= s.len(),
        forall|j: int| p <= j < e ==> !is_ws(#[trigger] s[j]),
        e == s.len() || is_ws(s[e]),
    ensures
        word_len(s.skip(p)) == e - p,
    decreases e - p,
{
    if p < e {
        lemma_skip_first(s, p);
        lemma_word_run(s, p + 1, e);
    } else if p < s.len() {
        lemma_skip_first(s, p);
    }
}

/// Finds the next field at or after byte `pos`: its start and end, or the length of the
/// text twice when no field is left.
fn next_field(bytes: &[u8], pos: usize) -> (res: (usize, usize))
    requires
        pos <= bytes@.len(),
    ensures
        pos <= res.0 <= res.1 <= bytes@.len(),
        res.0 == bytes@.len() ==> fields(bytes@.skip(pos as int)) == Seq::<Seq<u8>>::empty()
            && res.1 == res.0,
        res.0 < bytes@.len() ==> fields(bytes@.skip(pos as int)) == seq![
            bytes@.subrange(res.0 as int, res.1 as int),
        ] + fields(bytes@.skip(res.1 as int)),
        res.0 > pos ==> is_ws(bytes@[res.0 - 1]),
        pos < bytes@.len() && is_ws(bytes@[pos as int]) ==> res.0 > pos,
        res.1 < bytes@.len() ==> is_ws(bytes@[res.1 as int]),
{
    let ghost s = bytes@;
    let len = bytes.len();
    let mut start = pos;
    while start < len && is_ascii_ws(bytes[start])
        invariant
            pos <= start <= len,
            len == s.len(),
            s == bytes@,
            fields(s.skip(pos as int)) == fields(s.skip(start as int)),
            start > pos ==> is_ws(s[start - 1]),
        decreases len - start,
    {
        proof {
            lemma_skip_first(s, start as int);
        }
        start += 1;
    }
    let mut end = start;
    while end < len && !is_ascii_ws(bytes[end])
        invariant
            start <= end <= len,
            len == s.len(),
            s == bytes@,
            forall|j: int| start <= j < end ==> !is_ws(#[trigger] s[j]),
        decreases len - end,
    {
        end += 1;
    }
    proof {
        if start < len {
            lemma_skip_first(s, start as int);
            lemma_word_run(s, start as int, end as int);
            assert(s.skip(start as int).take(word_len(s.skip(start as int))) =~= s.subrange(
                start as int,
                end as int,
            ));
            assert(s.skip(start as int).skip(word_len(s.skip(start as int))) =~= s.skip(end as int));
        } else {
            assert(s.skip(start as int) =~= Seq::<u8>::empty());
        }
    }
    (start, end)
}

/// Reads one rank into `board` (see `parse_rank_from`).
fn parse_rank(board: &mut Board, bytes: &[u8], start: usize, end: usize, rank_index: u32) -> (r:
    Result<(), FenError>)
    requires
        start <= end <= bytes@.len(),
        rank_index < 8,
    ensures
        match parse_rank_from(
            *old(board),
            bytes@.subrange(start as int, end as int),
            rank_index as int,
            0,
            0,
        ) {
            Ok(b2) => r is Ok && *final(board) == b2,
            Err(e) => r matches Err(x) && x@ == e,
        },
{
    let ghost rs = bytes@.subrange(start as int, end as int);
    let ghost goal = parse_rank_from(*board, rs, rank_index as int, 0, 0);
    let mut file_index: u32 = 0;
    let mut k = start;
    while k < end
        invariant
            start <= k <= end <= bytes@.len(),
            rs == bytes@.subrange(start as int, end as int),
            rank_index < 8,
            file_index <= 8,
            goal == parse_rank_from(*board, rs, rank_index as int, k - start, file_index as int),
            goal == parse_rank_from(*old(board), rs, rank_index as int, 0, 0),
        decreases end - k,
    {
        let byte = bytes[k];
        assert(rs[k - start] == byte);
        if 48 <= byte && byte <= 57 {
            let empty_squares = (byte - 48) as u32;
            if !(1 <= empty_squares && empty_squares <= 8) {
                return Err(FenError::InvalidEmptySquares(empty_squares as u8));
            }
            file_index += empty_squares;
            if file_index > 8 {
                return Err(FenError::TooManyFilesInRank(rank_index + 1));
            }
            k += 1;
            continue ;
        }
        if (65 <= byte && byte <= 90) || (97 <= byte && byte <= 122) {
            if file_index >= 8 {
                return Err(FenError::TooManyFilesInRank(rank_index + 1));
            }
            let square_index = rank_index * 8 + file_index;
            let bit = 1u64 << (square_index as u64);
            let ghost before = *board;
            if byte == 80 {
                board.white_pawns = board.white_pawns | bit;
            } else if byte == 112 {
                board.black_pawns = board.black_pawns | bit;
            } else if byte == 78 {
                board.white_knights = board.white_knights | bit;
            } else if byte == 110 {
                board.black_knights = board.black_knights | bit;
            } else if byte == 66 {
                board.white_bishops = board.white_bishops | bit;
            } else if byte == 98 {
                board.black_bishops = board.black_bishops | bit;
            } else if byte == 82 {
                board.white_rooks = board.white_rooks | bit;
            } else if byte == 114 {
                board.black_rooks = board.black_rooks | bit;
            } else if byte == 81 {
                board.white_queens = board.white_queens | bit;
            } else if byte == 113 {
                board.black_queens = board.black_queens | bit;
            } else if byte == 75 {
                board.white_king = board.white_king | bit;
            } else if byte == 107 {
                board.black_king = board.black_king | bit;
            } else {
                return Err(FenError::InvalidCharacter(byte as char));
            }
            assert(place_piece(before, byte, (rank_index * 8 + file_index) as int) == Some(*board));
            file_index += 1;
            k += 1;
            continue ;
        }
        return Err(FenError::InvalidCharacter(byte as char));
    }
    if file_index != 8 {
        return Err(FenError::InvalidFileCountInRank(rank_index + 1));
    }
    Ok(())
}

proof fn lemma_slash_run(s: Seq<u8>, p: int, e: int, stop: int)
    requires
        0 <= p <= e <= stop <= s.len(),
        forall|j: int| p <= j < e ==> #[trigger] s[j] != 47,
        e == stop || s[e] == 47,
    ensures
        slash_index(s.subrange(p, stop)) == e - p,
    decreases e - p,
{
    if p < e {
        assert(s.subrange(p, stop).drop_first() =~= s.subrange(p + 1, stop));
        lemma_slash_run(s, p + 1, e, stop);
    }
}

/// The texts of the byte ranges `pieces` of `s`.
pub open spec fn range_texts(s: Seq<u8>, pieces: Seq<(usize, usize)>) -> Seq<Seq<u8>> {
    pieces.map_values(|p: (usize, usize)| s.subrange(p.0 as int, p.1 as int))
}

/// Splits the bytes `start..end` at '/' into byte ranges (see `split_slash`).
fn split_ranks(bytes: &[u8], start: usize, end: usize) -> (pieces: Vec<(usize, usize)>)
    requires
        start <= end <= bytes@.len(),
    ensures
        range_texts(bytes@, pieces@) == split_slash(bytes@.subrange(start as int, end as int)),
        forall|i: int|
            0 <= i < pieces@.len() ==> start <= (#[trigger] pieces@[i]).0 <= pieces@[i].1 <= end,
{
    let ghost s = bytes@;
    let mut pieces: Vec<(usize, usize)> = Vec::new();
    let mut piece_start = start;
    let mut k = start;
    while k < end
        invariant
            start <= piece_start <= k <= end <= s.len(),
            s == bytes@,
            forall|j: int| piece_start <= j < k ==> #[trigger] s[j] != 47,
            range_texts(s, pieces@) + split_slash(s.subrange(piece_start as int, end as int))
                == split_slash(s.subrange(start as int, end as int)),
            forall|i: int|
                0 <= i < pieces@.len() ==> start <= (#[trigger] pieces@[i]).0 <= pieces@[i].1 <= end,
        decreases end - k,
    {
        if bytes[k] == 47 {
            proof {
                let sub = s.subrange(piece_start as int, end as int);
                lemma_slash_run(s, piece_start as int, k as int, end as int);
                lemma_slash_index(sub);
                assert(sub.take(k - piece_start) =~= s.subrange(piece_start as int, k as int));
                assert(sub.skip(k - piece_start + 1) =~= s.subrange(k + 1, end as int));
                assert(range_texts(s, pieces@.push((piece_start, k))) =~= range_texts(s, pieces@).push(
                    s.subrange(piece_start as int, k as int),
                ));
            }
            pieces.push((piece_start, k));
            piece_start = k + 1;
        }
        k += 1;
    }
    proof {
        let sub = s.subrange(piece_start as int, end as int);
        lemma_slash_run(s, piece_start as int, end as int, end as int);
        lemma_slash_index(sub);
        assert(range_texts(s, pieces@.push((piece_start, end))) =~= range_texts(s, pieces@).push(
            sub,
        ));
    }
    pieces.push((piece_start, end));
    pieces
}

/// Reads the placement field (bytes `start..end`) into `board` (see `parse_placement`).
fn parse_placement_field(board: &mut Board, bytes: &[u8], start: usize, end: usize) -> (r: Result<
    (),
    FenError,
>)
    requires
        start <= end <= bytes@.len(),
    ensures
        match parse_placement(*old(board), bytes@.subrange(start as int, end as int)) {
            Ok(b2) => r is Ok && *final(board) == b2,
            Err(e) => r matches Err(x) && x@ == e,
        },
{
    let pieces = split_ranks(bytes, start, end);
    let ghost ranks = split_slash(bytes@.subrange(start as int, end as int));
    let ghost b0 = *board;
    if pieces.len() != 8 {
        return Err(FenError::InvalidRanksCount(pieces.len()));
    }
    let mut i: usize = 0;
    while i < 8
        invariant
            i <= 8,
            pieces@.len() == 8,
            ranks.len() == 8,
            range_texts(bytes@, pieces@) == ranks,
            forall|j: int| 0 <= j < pieces@.len() ==> start <= (#[trigger] pieces@[j]).0 <= pieces@[j].1 <= end,
            end <= bytes@.len(),
            parse_placement(b0, bytes@.subrange(start as int, end as int)) == parse_ranks(*board, ranks, i as int),
            b0 == *old(board),
            ranks == split_slash(bytes@.subrange(start as int, end as int)),
        decreases 8 - i,
    {
        let (piece_start, piece_end) = pieces[i];
        assert(ranks[i as int] == bytes@.subrange(piece_start as int, piece_end as int));
        match parse_rank(board, bytes, piece_start, piece_end, 7 - i as u32) {
            Ok(()) => {},
            Err(e) => {
                return Err(e);
            },
        }
        i += 1;
    }
    Ok(())
}

/// Reads the castling field (bytes `start..end`; see `parse_castling`).
fn parse_castling_field(bytes: &[u8], start: usize, end: usize) -> (r: Result<u8, FenError>)
    requires
        start <= end <= bytes@.len(),
    ensures
        match parse_castling(bytes@.subrange(start as int, end as int)) {
            Ok(v) => r == Ok::<u8, FenError>(v),
            Err(e) => r matches Err(x) && x@ == e,
        },
{
    let ghost sub = bytes@.subrange(start as int, end as int);
    if field_is(bytes, start, end, 45) {
        return Ok(0);
    }
    let mut rights: u8 = 0;
    let mut k = start;
    while k < end
        invariant
            start <= k <= end <= bytes@.len(),
            sub == bytes@.subrange(start as int, end as int),
            sub != seq![45u8],
            parse_castling(sub) == parse_castling_from(sub, k - start, rights),
        decreases end - k,
    {
        let c = bytes[k];
        assert(sub[k - start] == c);
        if c == 45 {
            return Ok(rights);
        } else if c == 75 {
            rights = rights | 1;
        } else if c == 81 {
            rights = rights | 2;
        } else if c == 107 {
            rights = rights | 4;
        } else if c == 113 {
            rights = rights | 8;
        } else {
            return Err(FenError::InvalidCastlingCharacter(c as char));
        }
        k += 1;
    }
    Ok(rights)
}

/// Reads the en-passant field (bytes `start..end`; see `parse_en_passant`).
fn parse_en_passant_field(fen: &str, bytes: &[u8], start: usize, end: usize) -> (r: Result<
    u64,
    FenError,
>)
    requires
        start <= end <= bytes@.len(),
        bytes@ == fen.spec_bytes(),
        start == 0 || is_ws(bytes@[start - 1]),
        end == bytes@.len() || is_ws(bytes@[end as int]),
    ensures
        match parse_en_passant(bytes@.subrange(start as int, end as int)) {
            Ok(v) => r == Ok::<u64, FenError>(v),
            Err(e) => r matches Err(x) && x@ == e,
        },
{
    let ghost sub = bytes@.subrange(start as int, end as int);
    if field_is(bytes, start, end, 45) {
        return Ok(0);
    }
    if end - start != 2 {
        return Err(FenError::InvalidEnPassantTarget(field_text(fen, start, end)));
    }
    let file_char = bytes[start];
    let rank_char = bytes[start + 1];
    assert(sub[0] == file_char && sub[1] == rank_char);
    if !(97 <= file_char && file_char <= 104) || !(49 <= rank_char && rank_char <= 56) {
        return Err(FenError::InvalidEnPassantTarget(field_text(fen, start, end)));
    }
    let square = (rank_char - 49) * 8 + (file_char - 97);
    Ok(1u64 << square)
}

proof fn lemma_digits_prefix_monotone(d: Seq<u8>, i: int, j: int)
    requires
        0 <= i <= j <= d.len(),
        all_digits(d),
    ensures
        digits_value(d.take(i)) <= digits_value(d.take(j)),
    decreases j - i,
{
    if i < j {
        lemma_digits_prefix_monotone(d, i, j - 1);
        assert(d.take(j).drop_last() =~= d.take(j - 1));
        assert(is_digit(d[j - 1]));
    }
}

/// Reads an unsigned number no larger than `max` from bytes `start..end` (see `parse_unsigned`).
fn parse_number(bytes: &[u8], start: usize, end: usize, max: u64) -> (r: Option<u64>)
    requires
        start <= end <= bytes@.len(),
        max <= 65535,
    ensures
        match parse_unsigned(bytes@.subrange(start as int, end as int), max as nat) {
            Some(v) => r == Some(v as u64),
            None => r is None,
        },
{
    let ghost sub = bytes@.subrange(start as int, end as int);
    let mut k = start;
    if k < end && bytes[k] == 43 {
        k += 1;
    }
    let digits_start = k;
    let ghost d = bytes@.subrange(digits_start as int, end as int);
    assert(parse_unsigned(sub, max as nat) == (if d.len() == 0 || !all_digits(d) || digits_value(d)
        > max as nat {
        None::<nat>
    } else {
        Some(digits_value(d))
    })) by {
        if sub.len() > 0 && sub[0] == 43 {
            assert(d =~= sub.drop_first());
        } else {
            assert(d =~= sub);
        }
    }
    if k == end {
        return None;
    }
    let mut value: u64 = 0;
    while k < end
        invariant
            digits_start <= k <= end <= bytes@.len(),
            max <= 65535,
            d == bytes@.subrange(digits_start as int, end as int),
            sub == bytes@.subrange(start as int, end as int),
            parse_unsigned(sub, max as nat) == (if d.len() == 0 || !all_digits(d) || digits_value(d)
                > max as nat {
                None::<nat>
            } else {
                Some(digits_value(d))
            }),
            d.len() > 0,
            all_digits(d.take(k - digits_start)),
            value == digits_value(d.take(k - digits_start)),
            value <= max,
        decreases end - k,
    {
        let c = bytes[k];
        assert(d[k - digits_start] == c);
        if !(48 <= c && c <= 57) {
            assert(!is_digit(d[k - digits_start]));
            return None;
        }
        let ghost i = k - digits_start;
        assert(d.take(i + 1).drop_last() =~= d.take(i));
        assert(all_digits(d.take(i + 1))) by {
            assert forall|j: int| 0 <= j < i + 1 implies is_digit(#[trigger] d.take(i + 1)[j]) by {
                if j < i {
                    assert(d.take(i + 1)[j] == d.take(i)[j]);
                }
            }
        }
        value = value * 10 + (c - 48) as u64;
        assert(d.take(i + 1).last() == c);
        assert(value == digits_value(d.take(i + 1)));
        if value > max {
            proof {
                if all_digits(d) {
                    lemma_digits_prefix_monotone(d, i + 1, d.len() as int);
                    assert(d.take(d.len() as int) =~= d);
                }
            }
            return None;
        }
        k += 1;
    }
    assert(d.take(k - digits_start) =~= d);
    Some(value)
}

/// A field that is one given byte.
fn field_is(bytes: &[u8], start: usize, end: usize, byte: u8) -> (r: bool)
    requires
        start <= end <= bytes@.len(),
    ensures
        r == (bytes@.subrange(start as int, end as int) == seq![byte]),
{
    let ghost sub = bytes@.subrange(start as int, end as int);
    if end - start == 1 && bytes[start] == byte {
        assert(sub =~= seq![byte]);
        true
    } else {
        assert(sub != seq![byte]) by {
            if sub == seq![byte] {
                assert(sub.len() == 1);
                assert(sub[0] == bytes@[start as int]);
            }
        }
        false
    }
}

impl Board {
    /// Reads a position from FEN text (see `parse_fen`): the pieces, the side to move, the
    /// castling rights, the en-passant target, both move counters, and the occupancies
    /// computed from the pieces.
    #[verifier::rlimit(40)]
    pub fn from_fen(fen: &str) -> (r: Result<Board, FenError>)
        ensures
            match parse_fen(fen.spec_bytes()) {
                Ok(b) => r == Ok::<Board, FenError>(b),
                Err(e) => r matches Err(x) && x@ == e,
            },
    {
        let bytes = fen.as_bytes();
        let len = bytes.len();
        let ghost s = bytes@;
        let ghost f = fields(s);
        assert(s.skip(0) =~= s);
        let (b0, b1) = next_field(bytes, 0);
        if b0 == len {
            return Err(FenError::MissingField("board"));
        }
        let ghost t0 = s.subrange(b0 as int, b1 as int);
        let (c0, c1) = next_field(bytes, b1);
        if c0 == len {
            assert(f =~= seq![t0]);
            return Err(FenError::MissingField("color"));
        }
        let ghost t1 = s.subrange(c0 as int, c1 as int);
        assert(f =~= seq![t0, t1] + fields(s.skip(c1 as int)));
        let (k0, k1) = next_field(bytes, c1);
        if k0 == len {
            assert(f =~= seq![t0, t1]);
            return Err(FenError::MissingField("castling"));
        }
        let ghost t2 = s.subrange(k0 as int, k1 as int);
        assert(f =~= seq![t0, t1, t2] + fields(s.skip(k1 as int)));
        let (e0, e1) = next_field(bytes, k1);
        if e0 == len {
            assert(f =~= seq![t0, t1, t2]);
            return Err(FenError::MissingField("en_passant"));
        }
        let ghost t3 = s.subrange(e0 as int, e1 as int);
        assert(f =~= seq![t0, t1, t2, t3] + fields(s.skip(e1 as int)));
        let (h0, h1) = next_field(bytes, e1);
        if h0 == len {
            assert(f =~= seq![t0, t1, t2, t3]);
            return Err(FenError::MissingField("half_move"));
        }
        let ghost t4 = s.subrange(h0 as int, h1 as int);
        assert(f =~= seq![t0, t1, t2, t3, t4] + fields(s.skip(h1 as int)));
        let (m0, m1) = next_field(bytes, h1);
        if m0 == len {
            assert(f =~= seq![t0, t1, t2, t3, t4]);
            return Err(FenError::MissingField("full_move"));
        }
        let ghost t5 = s.subrange(m0 as int, m1 as int);
        assert(f =~= seq![t0, t1, t2, t3, t4, t5] + fields(s.skip(m1 as int)));
        assert(f.len() >= 6 && f[0] == t0 && f[1] == t1 && f[2] == t2 && f[3] == t3 && f[4] == t4
            && f[5] == t5);
        let mut board = Board::empty();
        match parse_placement_field(&mut board, bytes, b0, b1) {
            Ok(()) => {},
            Err(e) => {
                return Err(e);
            },
        }
        let ghost placed = board;
        let active = if field_is(bytes, c0, c1, 119) {
            Color::White
        } else if field_is(bytes, c0, c1, 98) {
            Color::Black
        } else {
            return Err(FenError::InvalidColor(field_text(fen, c0, c1)));
        };
        let castling = match parse_castling_field(bytes, k0, k1) {
            Ok(v) => v,
            Err(e) => {
                return Err(e);
            },
        };
        let en_passant = match parse_en_passant_field(fen, bytes, e0, e1) {
            Ok(v) => v,
            Err(e) => {
                return Err(e);
            },
        };
        let half = match parse_number(bytes, h0, h1, 255) {
            Some(v) => v as u8,
            None => {
                return Err(FenError::InvalidHalfMoveClock(field_text(fen, h0, h1)));
            },
        };
        let full = match parse_number(bytes, m0, m1, 65535) {
            Some(v) => v as u16,
            None => {
                return Err(FenError::InvalidFullMoveNumber(field_text(fen, m0, m1)));
            },
        };
        board.active_color = active;
        board.castling_rights = castling;
        board.en_passant_target = en_passant;
        board.half_move_clock = half;
        board.full_move_number = full;
        board.white_occupancy = board.white_pawns | board.white_knights | board.white_bishops
            | board.white_rooks | board.white_queens | board.white_king;
        board.black_occupancy = board.black_pawns | board.black_knights | board.black_bishops
            | board.black_rooks | board.black_queens | board.black_king;
        board.all_occupancy = board.white_occupancy | board.black_occupancy;
        Ok(board)
    }
}

impl std::str::FromStr for Board {
    type Err = FenError;

    fn from_str(s: &str) -> (r: Result<Board, FenError>)
        ensures
            match parse_fen(s.spec_bytes()) {
                Ok(b) => r == Ok::<Board, FenError>(b),
                Err(e) => r matches Err(x) && x@ == e,
            },
    {
        Board::from_fen(s)
    }
}

} // verus!
