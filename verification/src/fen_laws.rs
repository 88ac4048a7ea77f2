use vstd::prelude::*;
use crate::fen_parse::{
    is_ws, word_len, fields, slash_index, split_slash, parse_castling, parse_castling_from,
    parse_en_passant, parse_unsigned, digits_value, all_digits, is_digit,
};
use crate::bitboard::{bit_set, lemma_single_bit};
use vstd::std_specs::bits::{u64_trailing_zeros, axiom_u64_trailing_zeros};
use crate::fen::{
    piece_char, digit_char, row_text, placement_text, castling_text, en_passant_text,
    decimal_text, fen_text,
};
use crate::board::{Board, pieces};
use crate::types::{Color, PieceType};
use crate::fen_parse::{
    place_piece, parse_rank_from, is_alpha, parse_ranks, parse_placement, parse_fen, parse_state,
    with_occupancies,
};
use crate::error::FenErrorView;
use crate::bitboard::lemma_bits_ext;
use crate::bitboard::{group_bits, rank_of, file_of, lemma_rank_file};
use vstd::utf8::{is_ascii_chars, encode_utf8, is_ascii_chars_encode_utf8};

verus! {

/// No byte of `w` is whitespace.
pub open spec fn no_ws(w: Seq<u8>) -> bool {
    forall|i: int| 0 <= i < w.len() ==> !is_ws(#[trigger] w[i])
}

/// No byte of `w` is '/'.
pub open spec fn no_slash(w: Seq<u8>) -> bool {
    forall|i: int| 0 <= i < w.len() ==> #[trigger] w[i] != 47
}

proof fn lemma_word_len_prefix(w: Seq<u8>, rest: Seq<u8>)
    requires
        no_ws(w),
        rest.len() == 0 || is_ws(rest[0]),
    ensures
        word_len(w + rest) == w.len(),
    decreases w.len(),
{
    if w.len() == 0 {
        assert(w + rest =~= rest);
    } else {
        assert((w + rest).drop_first() =~= w.drop_first() + rest);
        assert((w + rest)[0] == w[0]);
        lemma_word_len_prefix(w.drop_first(), rest);
    }
}

/// A word followed by whitespace or the end is the first field.
proof fn lemma_fields_word(w: Seq<u8>, rest: Seq<u8>)
    requires
        w.len() > 0,
        no_ws(w),
        rest.len() == 0 || is_ws(rest[0]),
    ensures
        fields(w + rest) == seq![w] + fields(rest),
{
    lemma_word_len_prefix(w, rest);
    assert((w + rest)[0] == w[0]);
    assert((w + rest).take(w.len() as int) =~= w);
    assert((w + rest).skip(w.len() as int) =~= rest);
}

/// The fields of words separated by single spaces are those words.
proof fn lemma_fields_spaced(w: Seq<u8>, rest: Seq<u8>)
    requires
        w.len() > 0,
        no_ws(w),
    ensures
        fields(w + seq![32u8] + rest) == seq![w] + fields(rest),
{
    assert(w + seq![32u8] + rest =~= w + (seq![32u8] + rest));
    lemma_fields_word(w, seq![32u8] + rest);
    assert((seq![32u8] + rest).drop_first() =~= rest);
}

proof fn lemma_fields_single(w: Seq<u8>)
    requires
        w.len() > 0,
        no_ws(w),
    ensures
        fields(w) == seq![w],
{
    assert(w + Seq::<u8>::empty() =~= w);
    lemma_fields_word(w, Seq::empty());
    assert(fields(Seq::<u8>::empty()) =~= Seq::<Seq<u8>>::empty());
    assert(seq![w] + Seq::<Seq<u8>>::empty() =~= seq![w]);
}

proof fn lemma_slash_index_prefix(w: Seq<u8>, rest: Seq<u8>)
    requires
        no_slash(w),
        rest.len() == 0 || rest[0] == 47,
    ensures
        slash_index(w + rest) == w.len(),
    decreases w.len(),
{
    if w.len() == 0 {
        assert(w + rest =~= rest);
    } else {
        assert((w + rest).drop_first() =~= w.drop_first() + rest);
        assert((w + rest)[0] == w[0]);
        lemma_slash_index_prefix(w.drop_first(), rest);
    }
}

/// A '/'-free piece followed by '/' is the first piece.
proof fn lemma_split_piece(w: Seq<u8>, rest: Seq<u8>)
    requires
        no_slash(w),
    ensures
        split_slash(w + seq![47u8] + rest) == seq![w] + split_slash(rest),
{
    let s = w + seq![47u8] + rest;
    lemma_slash_index_prefix(w, seq![47u8] + rest);
    assert(s =~= w + (seq![47u8] + rest));
    assert(s.take(w.len() as int) =~= w);
    assert(s.skip(w.len() + 1int) =~= rest);
}

/// A '/'-free text is a single piece.
proof fn lemma_split_single(w: Seq<u8>)
    requires
        no_slash(w),
    ensures
        split_slash(w) == seq![w],
{
    assert(w + Seq::<u8>::empty() =~= w);
    lemma_slash_index_prefix(w, Seq::empty());
}

/// The bytes of a text of ASCII characters.
pub open spec fn ascii_bytes(cs: Seq<char>) -> Seq<u8> {
    cs.map_values(|c: char| c as u8)
}

/// A printable ASCII character other than space.
pub open spec fn field_char(c: char) -> bool {
    33 <= c as int <= 126
}

/// Every character of `cs` is printable ASCII other than space.
pub open spec fn field_chars(cs: Seq<char>) -> bool {
    forall|i: int| 0 <= i < cs.len() ==> field_char(#[trigger] cs[i])
}

/// No character of `cs` is '/'.
pub open spec fn slash_free(cs: Seq<char>) -> bool {
    forall|i: int| 0 <= i < cs.len() ==> #[trigger] cs[i] != '/'
}

proof fn lemma_ascii_bytes_concat(a: Seq<char>, b: Seq<char>)
    ensures
        ascii_bytes(a + b) == ascii_bytes(a) + ascii_bytes(b),
{
    assert(ascii_bytes(a + b) =~= ascii_bytes(a) + ascii_bytes(b));
}

proof fn lemma_field_bytes(cs: Seq<char>)
    requires
        field_chars(cs),
    ensures
        no_ws(ascii_bytes(cs)),
        slash_free(cs) ==> no_slash(ascii_bytes(cs)),
        ascii_bytes(cs).len() == cs.len(),
{
    assert forall|i: int| 0 <= i < ascii_bytes(cs).len() implies !is_ws(
        #[trigger] ascii_bytes(cs)[i],
    ) by {
        assert(field_char(cs[i]));
    }
    if slash_free(cs) {
        assert forall|i: int| 0 <= i < ascii_bytes(cs).len() implies #[trigger] ascii_bytes(cs)[i]
            != 47 by {
            assert(cs[i] != '/');
            assert(field_char(cs[i]));
        }
    }
}

proof fn lemma_field_chars_concat(a: Seq<char>, b: Seq<char>)
    requires
        field_chars(a),
        field_chars(b),
    ensures
        field_chars(a + b),
        slash_free(a) && slash_free(b) ==> slash_free(a + b),
{
    assert forall|i: int| 0 <= i < (a + b).len() implies field_char(#[trigger] (a + b)[i]) by {
        if i < a.len() {
            assert((a + b)[i] == a[i]);
        } else {
            assert((a + b)[i] == b[i - a.len()]);
        }
    }
    if slash_free(a) && slash_free(b) {
        assert forall|i: int| 0 <= i < (a + b).len() implies #[trigger] (a + b)[i] != '/' by {
            if i < a.len() {
                assert((a + b)[i] == a[i]);
            } else {
                assert((a + b)[i] == b[i - a.len()]);
            }
        }
    }
}

proof fn lemma_digit_field(e: int)
    requires
        0 <= e <= 9,
    ensures
        field_chars(seq![digit_char(e)]),
        slash_free(seq![digit_char(e)]),
{
    assert(seq![digit_char(e)][0] == digit_char(e));
}

proof fn lemma_piece_char_field(b: Board, sq: int)
    ensures
        piece_char(b, sq) matches Some(c) ==> field_chars(seq![c]) && slash_free(seq![c]),
{
}

/// A rank's text is printable, '/'-free, and not empty when squares remain.
proof fn lemma_row_text_chars(b: Board, r: int, f: int, e: int)
    requires
        0 <= f <= 8,
        0 <= e <= f,
    ensures
        field_chars(row_text(b, r, f, e)),
        slash_free(row_text(b, r, f, e)),
        f < 8 || e > 0 ==> row_text(b, r, f, e).len() > 0,
    decreases 8 - f,
{
    if f >= 8 {
        if e > 0 {
            lemma_digit_field(e);
        }
    } else {
        match piece_char(b, r * 8 + f) {
            Some(c) => {
                lemma_row_text_chars(b, r, f + 1, 0);
                let d = if e > 0 {
                    seq![digit_char(e)]
                } else {
                    Seq::<char>::empty()
                };
                if e > 0 {
                    lemma_digit_field(e);
                }
                lemma_piece_char_field(b, r * 8 + f);
                lemma_field_chars_concat(d, seq![c]);
                lemma_field_chars_concat(d + seq![c], row_text(b, r, f + 1, 0));
            },
            None => {
                lemma_row_text_chars(b, r, f + 1, e + 1);
            },
        }
    }
}

/// The placement text is printable and not empty.
proof fn lemma_placement_chars(b: Board, rank: int)
    requires
        0 <= rank,
    ensures
        field_chars(placement_text(b, rank)),
        placement_text(b, rank).len() > 0,
    decreases rank,
{
    lemma_row_text_chars(b, rank, 0, 0);
    if rank > 0 {
        lemma_placement_chars(b, rank - 1);
        lemma_field_chars_concat(row_text(b, rank, 0, 0), seq!['/']);
        lemma_field_chars_concat(row_text(b, rank, 0, 0) + seq!['/'], placement_text(b, rank - 1));
    }
}

proof fn lemma_decimal_chars(n: nat)
    ensures
        field_chars(decimal_text(n)),
        decimal_text(n).len() > 0,
        forall|i: int| 0 <= i < decimal_text(n).len() ==> 48 <= #[trigger] decimal_text(n)[i] as int <= 57,
    decreases n,
{
    if n >= 10 {
        lemma_decimal_chars(n / 10);
        let d = decimal_text(n / 10);
        let last = seq![digit_char((n % 10) as int)];
        lemma_field_chars_concat(d, last);
        assert forall|i: int| 0 <= i < decimal_text(n).len() implies 48 <= #[trigger] decimal_text(
            n,
        )[i] as int <= 57 by {
            if i < d.len() {
                assert(decimal_text(n)[i] == d[i]);
            } else {
                assert(decimal_text(n)[i] == last[0]);
            }
        }
    }
}

proof fn lemma_castling_chars(rights: u8)
    ensures
        field_chars(castling_text(rights)),
        castling_text(rights).len() > 0 || rights != 0 && rights & 15 == 0,
{
    let k = if rights & 1 != 0 { seq!['K'] } else { Seq::<char>::empty() };
    let q = if rights & 2 != 0 { seq!['Q'] } else { Seq::<char>::empty() };
    let k2 = if rights & 4 != 0 { seq!['k'] } else { Seq::<char>::empty() };
    let q2 = if rights & 8 != 0 { seq!['q'] } else { Seq::<char>::empty() };
    if rights != 0 {
        lemma_field_chars_concat(k, q);
        lemma_field_chars_concat(k + q, k2);
        lemma_field_chars_concat(k + q + k2, q2);
        assert(rights & 15 == 0 || rights & 1 != 0 || rights & 2 != 0 || rights & 4 != 0 || rights
            & 8 != 0) by (bit_vector);
    }
}

proof fn lemma_castling_skip(s: Seq<u8>, k: int, acc: u8)
    requires
        0 <= k <= s.len(),
    ensures
        parse_castling_from(s, k, acc) == parse_castling_from(s.skip(k), 0, acc),
    decreases s.len() - k,
{
    if k < s.len() {
        let c = s[k];
        assert(s.skip(k)[0] == c);
        assert(s.skip(k).skip(1) =~= s.skip(k + 1));
        if c == 75 {
            lemma_castling_skip(s, k + 1, acc | 1u8);
            lemma_castling_skip(s.skip(k), 1, acc | 1u8);
        } else if c == 81 {
            lemma_castling_skip(s, k + 1, acc | 2u8);
            lemma_castling_skip(s.skip(k), 1, acc | 2u8);
        } else if c == 107 {
            lemma_castling_skip(s, k + 1, acc | 4u8);
            lemma_castling_skip(s.skip(k), 1, acc | 4u8);
        } else if c == 113 {
            lemma_castling_skip(s, k + 1, acc | 8u8);
            lemma_castling_skip(s.skip(k), 1, acc | 8u8);
        }
    } else {
        assert(s.skip(k).len() == 0);
    }
}

/// One optional castling letter, then the rest.
proof fn lemma_castling_letter(held: bool, letter: char, bit: u8, rest: Seq<u8>, acc: u8)
    requires
        (letter == 'K' && bit == 1) || (letter == 'Q' && bit == 2) || (letter == 'k' && bit == 4)
            || (letter == 'q' && bit == 8),
    ensures
        parse_castling_from(
            ascii_bytes(
                if held {
                    seq![letter]
                } else {
                    Seq::<char>::empty()
                },
            ) + rest,
            0,
            acc,
        ) == parse_castling_from(
            rest,
            0,
            if held {
                acc | bit
            } else {
                acc
            },
        ),
{
    if held {
        let s = ascii_bytes(seq![letter]) + rest;
        assert(s[0] == letter as u8);
        lemma_castling_skip(s, 1, acc | bit);
        assert(s.skip(1) =~= rest);
    } else {
        assert(ascii_bytes(Seq::<char>::empty()) + rest =~= rest);
    }
}

/// The castling text of rights up to 15 reads back as those rights.
proof fn lemma_castling_round_trip(rights: u8)
    requires
        rights <= 15,
    ensures
        parse_castling(ascii_bytes(castling_text(rights))) == Ok::<u8, crate::error::FenErrorView>(
            rights,
        ),
{
    if rights == 0 {
        assert(ascii_bytes(castling_text(0)) =~= seq![45u8]);
    } else {
        let hk = rights & 1 != 0;
        let hq = rights & 2 != 0;
        let hk2 = rights & 4 != 0;
        let hq2 = rights & 8 != 0;
        let k = if hk { seq!['K'] } else { Seq::<char>::empty() };
        let q = if hq { seq!['Q'] } else { Seq::<char>::empty() };
        let k2 = if hk2 { seq!['k'] } else { Seq::<char>::empty() };
        let q2 = if hq2 { seq!['q'] } else { Seq::<char>::empty() };
        let s = ascii_bytes(castling_text(rights));
        lemma_ascii_bytes_concat(k, q);
        lemma_ascii_bytes_concat(k + q, k2);
        lemma_ascii_bytes_concat(k + q + k2, q2);
        let bq = ascii_bytes(q);
        let bk2 = ascii_bytes(k2);
        let bq2 = ascii_bytes(q2);
        assert(s =~= ascii_bytes(k) + (bq + bk2 + bq2));
        assert(bq + bk2 + bq2 =~= bq + (bk2 + bq2));
        assert(bk2 + bq2 =~= bk2 + (bq2 + Seq::<u8>::empty()));
        lemma_castling_letter(hk, 'K', 1, bq + bk2 + bq2, 0);
        let a1: u8 = if hk { 0u8 | 1u8 } else { 0u8 };
        lemma_castling_letter(hq, 'Q', 2, bk2 + bq2, a1);
        let a2: u8 = if hq { a1 | 2u8 } else { a1 };
        lemma_castling_letter(hk2, 'k', 4, bq2 + Seq::<u8>::empty(), a2);
        let a3: u8 = if hk2 { a2 | 4u8 } else { a2 };
        lemma_castling_letter(hq2, 'q', 8, Seq::<u8>::empty(), a3);
        let a4: u8 = if hq2 { a3 | 8u8 } else { a3 };
        assert(bq2 + Seq::<u8>::empty() =~= bq2);
        assert(a4 == rights) by (bit_vector)
            requires
                rights <= 15,
                hk == (rights & 1 != 0),
                hq == (rights & 2 != 0),
                hk2 == (rights & 4 != 0),
                hq2 == (rights & 8 != 0),
                a1 == if hk { 0u8 | 1u8 } else { 0u8 },
                a2 == if hq { a1 | 2u8 } else { a1 },
                a3 == if hk2 { a2 | 4u8 } else { a2 },
                a4 == if hq2 { a3 | 8u8 } else { a3 },
        ;
        assert(s.len() > 0 && s[0] != 45) by {
            if hk {
                assert(s[0] == 75);
            } else if hq {
                assert(s[0] == 81);
            } else if hk2 {
                assert(s[0] == 107);
            } else {
                assert(hq2) by (bit_vector)
                    requires
                        rights != 0,
                        rights <= 15,
                        hk == (rights & 1 != 0),
                        hq == (rights & 2 != 0),
                        hk2 == (rights & 4 != 0),
                        hq2 == (rights & 8 != 0),
                        !hk && !hq && !hk2,
                ;
                assert(s[0] == 113);
            }
        }
        assert(s != seq![45u8]);
    }
}

/// The target of a single-square (or empty) en-passant bitboard reads back from its text.
proof fn lemma_en_passant_round_trip(ep: u64)
    requires
        ep == 0 || exists|k: u64| k < 64 && ep == 1u64 << k,
    ensures
        parse_en_passant(ascii_bytes(en_passant_text(ep))) == Ok::<u64, crate::error::FenErrorView>(ep),
{
    if ep == 0 {
        assert(ascii_bytes(en_passant_text(0)) =~= seq![45u8]);
    } else {
        let k = choose|k: u64| k < 64 && ep == 1u64 << k;
        lemma_single_bit(k);
        axiom_u64_trailing_zeros(ep);
        let tz = u64_trailing_zeros(ep);
        assert(bit_set(ep, tz as int));
        assert(tz == k);
        let s = ascii_bytes(en_passant_text(ep));
        assert(s.len() == 2);
        assert(s[0] == (97 + k % 8) as u8 && s[1] == (49 + k / 8) as u8);
        assert(s != seq![45u8]) by {
            if s == seq![45u8] {
                assert(s.len() == 1);
            }
        }
        assert(((s[1] - 49) * 8 + (s[0] - 97)) as u64 == k);
    }
}

/// A decimal text reads back as its number.
proof fn lemma_decimal_value(n: nat)
    ensures
        digits_value(ascii_bytes(decimal_text(n))) == n,
        all_digits(ascii_bytes(decimal_text(n))),
        ascii_bytes(decimal_text(n)).len() > 0,
    decreases n,
{
    lemma_decimal_chars(n);
    let s = ascii_bytes(decimal_text(n));
    assert forall|i: int| 0 <= i < s.len() implies is_digit(#[trigger] s[i]) by {
        assert(48 <= decimal_text(n)[i] as int <= 57);
    }
    if n < 10 {
        assert(s.drop_last() =~= Seq::<u8>::empty());
        assert(s.last() == (48 + n) as u8);
        assert(s.len() > 0);
        assert(digits_value(s) == digits_value(s.drop_last()) * 10 + (s.last() - 48) as nat);
    } else {
        lemma_decimal_value(n / 10);
        lemma_ascii_bytes_concat(decimal_text(n / 10), seq![digit_char((n % 10) as int)]);
        assert(s.drop_last() =~= ascii_bytes(decimal_text(n / 10)));
        assert(s.last() == (48 + n % 10) as u8);
        assert(s.len() > 0);
        assert(digits_value(s) == digits_value(s.drop_last()) * 10 + (s.last() - 48) as nat);
        assert(digits_value(s.drop_last()) == n / 10);
        assert(n == (n / 10) * 10 + n % 10);
    }
}

proof fn lemma_number_round_trip(n: nat, max: nat)
    requires
        n <= max,
    ensures
        parse_unsigned(ascii_bytes(decimal_text(n)), max) == Some(n),
{
    lemma_decimal_value(n);
    lemma_decimal_chars(n);
    let s = ascii_bytes(decimal_text(n));
    assert(48 <= decimal_text(n)[0] as int <= 57);
    assert(s[0] != 43);
}

/// The FEN letter of a piece: upper case for White, lower case for Black.
pub open spec fn letter(c: Color, k: PieceType) -> char {
    let upper = match k {
        PieceType::Pawn => 'P',
        PieceType::Knight => 'N',
        PieceType::Bishop => 'B',
        PieceType::Rook => 'R',
        PieceType::Queen => 'Q',
        PieceType::King => 'K',
    };
    match c {
        Color::White => upper,
        Color::Black => ((upper as u8) + 32) as char,
    }
}

/// No square holds two pieces.
pub open spec fn pieces_disjoint(b: Board) -> bool {
    forall|c1: Color, k1: PieceType, c2: Color, k2: PieceType, t: int|
        (c1 != c2 || k1 != k2) && #[trigger] bit_set(pieces(b, c1, k1), t) ==> !#[trigger] bit_set(
            pieces(b, c2, k2),
            t,
        )
}

/// On a board without stacked pieces, the FEN letter of a square names its piece.
proof fn lemma_piece_char_of(b: Board, sq: int, c: Color, k: PieceType)
    requires
        pieces_disjoint(b),
    ensures
        bit_set(pieces(b, c, k), sq) ==> piece_char(b, sq) == Some(letter(c, k)),
        piece_char(b, sq) is None ==> !bit_set(pieces(b, c, k), sq),
{
    if bit_set(pieces(b, c, k), sq) {
        assert forall|c2: Color, k2: PieceType| (c != c2 || k != k2) implies !bit_set(
            pieces(b, c2, k2),
            sq,
        ) by {
            assert(bit_set(pieces(b, c, k), sq));
        }
        assert(!bit_set(pieces(b, Color::White, PieceType::Pawn), sq) || (c == Color::White && k
            == PieceType::Pawn));
        assert(!bit_set(pieces(b, Color::Black, PieceType::Pawn), sq) || (c == Color::Black && k
            == PieceType::Pawn));
        assert(!bit_set(pieces(b, Color::White, PieceType::Knight), sq) || (c == Color::White && k
            == PieceType::Knight));
        assert(!bit_set(pieces(b, Color::Black, PieceType::Knight), sq) || (c == Color::Black && k
            == PieceType::Knight));
        assert(!bit_set(pieces(b, Color::White, PieceType::Bishop), sq) || (c == Color::White && k
            == PieceType::Bishop));
        assert(!bit_set(pieces(b, Color::Black, PieceType::Bishop), sq) || (c == Color::Black && k
            == PieceType::Bishop));
        assert(!bit_set(pieces(b, Color::White, PieceType::Rook), sq) || (c == Color::White && k
            == PieceType::Rook));
        assert(!bit_set(pieces(b, Color::Black, PieceType::Rook), sq) || (c == Color::Black && k
            == PieceType::Rook));
        assert(!bit_set(pieces(b, Color::White, PieceType::Queen), sq) || (c == Color::White && k
            == PieceType::Queen));
        assert(!bit_set(pieces(b, Color::Black, PieceType::Queen), sq) || (c == Color::Black && k
            == PieceType::Queen));
        assert(!bit_set(pieces(b, Color::White, PieceType::King), sq) || (c == Color::White && k
            == PieceType::King));
    }
}

/// `b` with square `sq` added to the board of piece (`c`, `k`).
pub open spec fn with_piece(b: Board, c: Color, k: PieceType, sq: int) -> Board {
    let bit = 1u64 << (sq as u64);
    match c {
        Color::White => match k {
            PieceType::Pawn => Board { white_pawns: b.white_pawns | bit, ..b },
            PieceType::Knight => Board { white_knights: b.white_knights | bit, ..b },
            PieceType::Bishop => Board { white_bishops: b.white_bishops | bit, ..b },
            PieceType::Rook => Board { white_rooks: b.white_rooks | bit, ..b },
            PieceType::Queen => Board { white_queens: b.white_queens | bit, ..b },
            PieceType::King => Board { white_king: b.white_king | bit, ..b },
        },
        Color::Black => match k {
            PieceType::Pawn => Board { black_pawns: b.black_pawns | bit, ..b },
            PieceType::Knight => Board { black_knights: b.black_knights | bit, ..b },
            PieceType::Bishop => Board { black_bishops: b.black_bishops | bit, ..b },
            PieceType::Rook => Board { black_rooks: b.black_rooks | bit, ..b },
            PieceType::Queen => Board { black_queens: b.black_queens | bit, ..b },
            PieceType::King => Board { black_king: b.black_king | bit, ..b },
        },
    }
}

/// Reading a piece letter adds its square to that piece's board.
proof fn lemma_place_letter(acc: Board, c: Color, k: PieceType, sq: int)
    ensures
        place_piece(acc, letter(c, k) as u8, sq) == Some(with_piece(acc, c, k, sq)),
{
}

/// The board of piece (`c2`, `k2`) after adding a square to piece (`c`, `k`).
proof fn lemma_with_piece(acc: Board, c: Color, k: PieceType, sq: int, c2: Color, k2: PieceType)
    ensures
        pieces(with_piece(acc, c, k, sq), c2, k2) == if c == c2 && k == k2 {
            pieces(acc, c, k) | (1u64 << (sq as u64))
        } else {
            pieces(acc, c2, k2)
        },
{
}

/// The piece on `sq`, looked up in the order of `piece_char`.
pub open spec fn piece_of(b: Board, sq: int) -> Option<(Color, PieceType)> {
    if bit_set(b.white_pawns, sq) {
        Some((Color::White, PieceType::Pawn))
    } else if bit_set(b.black_pawns, sq) {
        Some((Color::Black, PieceType::Pawn))
    } else if bit_set(b.white_knights, sq) {
        Some((Color::White, PieceType::Knight))
    } else if bit_set(b.black_knights, sq) {
        Some((Color::Black, PieceType::Knight))
    } else if bit_set(b.white_bishops, sq) {
        Some((Color::White, PieceType::Bishop))
    } else if bit_set(b.black_bishops, sq) {
        Some((Color::Black, PieceType::Bishop))
    } else if bit_set(b.white_rooks, sq) {
        Some((Color::White, PieceType::Rook))
    } else if bit_set(b.black_rooks, sq) {
        Some((Color::Black, PieceType::Rook))
    } else if bit_set(b.white_queens, sq) {
        Some((Color::White, PieceType::Queen))
    } else if bit_set(b.black_queens, sq) {
        Some((Color::Black, PieceType::Queen))
    } else if bit_set(b.white_king, sq) {
        Some((Color::White, PieceType::King))
    } else if bit_set(b.black_king, sq) {
        Some((Color::Black, PieceType::King))
    } else {
        None
    }
}

proof fn lemma_piece_of(b: Board, sq: int)
    ensures
        piece_char(b, sq) == match piece_of(b, sq) {
            Some((c, k)) => Some(letter(c, k)),
            None => None,
        },
        piece_of(b, sq) matches Some((c, k)) ==> bit_set(pieces(b, c, k), sq) && is_alpha(
            letter(c, k) as u8,
        ) && !(48 <= letter(c, k) as u8 <= 57),
{
}

/// The position of a square in FEN order: eighth rank first, each rank from the a-file.
pub open spec fn fen_order(t: int) -> int {
    (7 - rank_of(t)) * 8 + file_of(t)
}

/// The non-piece fields of two boards agree.
pub open spec fn same_state(a: Board, b: Board) -> bool {
    &&& a.white_occupancy == b.white_occupancy
    &&& a.black_occupancy == b.black_occupancy
    &&& a.all_occupancy == b.all_occupancy
    &&& a.active_color == b.active_color
    &&& a.castling_rights == b.castling_rights
    &&& a.en_passant_target == b.en_passant_target
    &&& a.half_move_clock == b.half_move_clock
    &&& a.full_move_number == b.full_move_number
}

/// `acc` holds exactly the pieces of `b` on the first `p` squares in FEN order, on an
/// otherwise empty board.
pub open spec fn read_upto(acc: Board, b: Board, p: int) -> bool {
    &&& forall|c: Color, k: PieceType, t: int|
        0 <= t < 64 ==> (#[trigger] bit_set(pieces(acc, c, k), t) <==> (fen_order(t) < p && bit_set(
            pieces(b, c, k),
            t,
        )))
    &&& same_state(acc, Board::empty_spec())
}

proof fn lemma_rank_skip(acc: Board, s: Seq<u8>, rank: int, k: int, file: int)
    requires
        0 <= k <= s.len(),
    ensures
        parse_rank_from(acc, s, rank, k, file) == parse_rank_from(acc, s.skip(k), rank, 0, file),
    decreases s.len() - k,
{
    if k < s.len() {
        let c = s[k];
        let t = s.skip(k);
        assert(t[0] == c);
        assert(t.skip(1) =~= s.skip(k + 1));
        if is_digit(c) {
            let n = c - 48;
            lemma_rank_skip(acc, s, rank, k + 1, file + n);
            lemma_rank_skip(acc, t, rank, 1, file + n);
        } else if is_alpha(c) {
            match place_piece(acc, c, rank * 8 + file) {
                Some(b2) => {
                    lemma_rank_skip(b2, s, rank, k + 1, file + 1);
                    lemma_rank_skip(b2, t, rank, 1, file + 1);
                },
                None => {},
            }
        }
    } else {
        assert(s.skip(k).len() == 0);
    }
}

/// Adding the piece of `b` on the next square in FEN order extends what has been read.
proof fn lemma_read_next(acc: Board, b: Board, r: int, f: int, c: Color, k: PieceType)
    requires
        pieces_disjoint(b),
        0 <= r < 8,
        0 <= f < 8,
        read_upto(acc, b, (7 - r) * 8 + f),
        bit_set(pieces(b, c, k), r * 8 + f),
    ensures
        read_upto(with_piece(acc, c, k, r * 8 + f), b, (7 - r) * 8 + f + 1),
{
    broadcast use group_bits;

    let sq = r * 8 + f;
    let acc2 = with_piece(acc, c, k, sq);
    lemma_single_bit(sq as u64);
    assert forall|c2: Color, k2: PieceType, t: int|
        0 <= t < 64 implies (#[trigger] bit_set(pieces(acc2, c2, k2), t) <==> (fen_order(t) < (7 - r)
        * 8 + f + 1 && bit_set(pieces(b, c2, k2), t))) by {
        lemma_with_piece(acc, c, k, sq, c2, k2);
        lemma_rank_file(t);
        assert(bit_set(pieces(acc, c2, k2), t) <==> (fen_order(t) < (7 - r) * 8 + f && bit_set(
            pieces(b, c2, k2),
            t,
        )));
        if t == sq {
            assert(fen_order(t) == (7 - r) * 8 + f);
            if c2 != c || k2 != k {
                assert(!bit_set(pieces(b, c2, k2), t));
            }
        } else {
            assert(fen_order(t) != (7 - r) * 8 + f);
        }
    }
}

/// A square of `b` without a piece extends what has been read without change.
proof fn lemma_read_empty(acc: Board, b: Board, r: int, f: int)
    requires
        pieces_disjoint(b),
        0 <= r < 8,
        0 <= f < 8,
        read_upto(acc, b, (7 - r) * 8 + f),
        piece_char(b, r * 8 + f) is None,
    ensures
        read_upto(acc, b, (7 - r) * 8 + f + 1),
{
    assert forall|c2: Color, k2: PieceType, t: int|
        0 <= t < 64 implies (#[trigger] bit_set(pieces(acc, c2, k2), t) <==> (fen_order(t) < (7 - r)
        * 8 + f + 1 && bit_set(pieces(b, c2, k2), t))) by {
        lemma_rank_file(t);
        lemma_piece_char_of(b, r * 8 + f, c2, k2);
        assert(bit_set(pieces(acc, c2, k2), t) <==> (fen_order(t) < (7 - r) * 8 + f && bit_set(
            pieces(b, c2, k2),
            t,
        )));
        if t == r * 8 + f {
            assert(fen_order(t) == (7 - r) * 8 + f);
        } else {
            assert(fen_order(t) != (7 - r) * 8 + f);
        }
    }
}

/// Reading the text of rank `r` from file `f` on, with `e` empty squares pending before it,
/// adds the pieces of `b` on the rest of the rank.
proof fn lemma_rank_round_trip(b: Board, acc: Board, r: int, f: int, e: int)
    requires
        pieces_disjoint(b),
        0 <= r < 8,
        0 <= e <= f <= 8,
        read_upto(acc, b, (7 - r) * 8 + f),
    ensures
        parse_rank_from(acc, ascii_bytes(row_text(b, r, f, e)), r, 0, f - e) matches Ok(x)
            && read_upto(x, b, (7 - r) * 8 + 8),
    decreases 8 - f,
{
    let s = ascii_bytes(row_text(b, r, f, e));
    if f >= 8 {
        if e > 0 {
            assert(s.len() == 1 && s[0] == (48 + e) as u8);
            assert(parse_rank_from(acc, s, r, 1, 8) == Ok::<Board, crate::error::FenErrorView>(acc));
        }
    } else {
        let sq = r * 8 + f;
        lemma_piece_of(b, sq);
        match piece_of(b, sq) {
            Some((c, k)) => {
                let ch = letter(c, k);
                let d = if e > 0 {
                    seq![digit_char(e)]
                } else {
                    Seq::<char>::empty()
                };
                let rest = row_text(b, r, f + 1, 0);
                assert(row_text(b, r, f, e) == d + seq![ch] + rest);
                lemma_ascii_bytes_concat(d, seq![ch]);
                lemma_ascii_bytes_concat(d + seq![ch], rest);
                let bd = ascii_bytes(d);
                let n = bd.len() as int;
                assert(s[n] == ch as u8);
                assert(s.skip(n + 1) =~= ascii_bytes(rest));
                let acc2 = with_piece(acc, c, k, sq);
                lemma_place_letter(acc, c, k, sq);
                if e > 0 {
                    assert(s[0] == (48 + e) as u8);
                    assert(parse_rank_from(acc, s, r, 0, f - e) == parse_rank_from(acc, s, r, 1, f));
                }
                assert(parse_rank_from(acc, s, r, n, f) == parse_rank_from(acc2, s, r, n + 1, f + 1));
                lemma_rank_skip(acc2, s, r, n + 1, f + 1);
                lemma_read_next(acc, b, r, f, c, k);
                lemma_rank_round_trip(b, acc2, r, f + 1, 0);
            },
            None => {
                lemma_read_empty(acc, b, r, f);
                lemma_rank_round_trip(b, acc, r, f + 1, e + 1);
            },
        }
    }
}

/// The bytes of the text of rank `r`.
pub open spec fn row_bytes(b: Board, r: int) -> Seq<u8> {
    ascii_bytes(row_text(b, r, 0, 0))
}

/// The rank texts from rank `r` down to the first rank.
pub open spec fn rows(b: Board, r: int) -> Seq<Seq<u8>>
    decreases r,
{
    if r <= 0 {
        seq![row_bytes(b, 0)]
    } else {
        seq![row_bytes(b, r)] + rows(b, r - 1)
    }
}

proof fn lemma_split_placement(b: Board, r: int)
    requires
        0 <= r,
    ensures
        split_slash(ascii_bytes(placement_text(b, r))) == rows(b, r),
    decreases r,
{
    lemma_row_text_chars(b, r, 0, 0);
    lemma_field_bytes(row_text(b, r, 0, 0));
    if r > 0 {
        lemma_split_placement(b, r - 1);
        lemma_ascii_bytes_concat(row_text(b, r, 0, 0), seq!['/']);
        lemma_ascii_bytes_concat(row_text(b, r, 0, 0) + seq!['/'], placement_text(b, r - 1));
        assert(ascii_bytes(seq!['/']) =~= seq![47u8]);
        lemma_split_piece(row_bytes(b, r), ascii_bytes(placement_text(b, r - 1)));
    } else {
        lemma_split_single(row_bytes(b, 0));
    }
}

proof fn lemma_rows_index(b: Board, r: int, j: int)
    requires
        0 <= j <= r,
    ensures
        rows(b, r).len() == r + 1,
        rows(b, r)[j] == row_bytes(b, r - j),
    decreases r,
{
    if r > 0 {
        if j > 0 {
            lemma_rows_index(b, r - 1, j - 1);
        } else {
            lemma_rows_index(b, r - 1, 0);
        }
    }
}

proof fn lemma_ranks_round_trip(b: Board, acc: Board, i: int)
    requires
        pieces_disjoint(b),
        0 <= i <= 8,
        read_upto(acc, b, i * 8),
    ensures
        parse_ranks(acc, rows(b, 7), i) matches Ok(x) && read_upto(x, b, 64),
    decreases 8 - i,
{
    lemma_rows_index(b, 7, 0);
    if i < 8 {
        lemma_rows_index(b, 7, i);
        lemma_rank_round_trip(b, acc, 7 - i, 0, 0);
        let x = parse_rank_from(acc, row_bytes(b, 7 - i), 7 - i, 0, 0)->Ok_0;
        lemma_ranks_round_trip(b, x, i + 1);
    }
}

/// The placement text of `b` reads back as the pieces of `b` on an otherwise empty board.
proof fn lemma_placement_round_trip(b: Board)
    requires
        pieces_disjoint(b),
    ensures
        parse_placement(Board::empty_spec(), ascii_bytes(placement_text(b, 7))) matches Ok(x)
            && read_upto(x, b, 64),
{
    broadcast use group_bits;

    lemma_split_placement(b, 7);
    lemma_rows_index(b, 7, 0);
    assert(read_upto(Board::empty_spec(), b, 0));
    lemma_ranks_round_trip(b, Board::empty_spec(), 0);
}

proof fn lemma_en_passant_chars(ep: u64)
    ensures
        field_chars(en_passant_text(ep)),
        en_passant_text(ep).len() > 0,
{
    if ep != 0 {
        axiom_u64_trailing_zeros(ep);
    }
}

/// A position that FEN text can describe: occupancies that match the pieces, no square
/// holding two pieces, castling rights among the four flags, and at most one en-passant
/// square.
pub open spec fn fen_representable(b: Board) -> bool {
    &&& b.wf()
    &&& pieces_disjoint(b)
    &&& b.castling_rights <= 15
    &&& (b.en_passant_target == 0 || exists|k: u64| k < 64 && b.en_passant_target == 1u64 << k)
}

/// Two boards whose piece bitboards hold the same squares have equal piece bitboards.
proof fn lemma_same_pieces(x: Board, b: Board)
    requires
        read_upto(x, b, 64),
    ensures
        forall|c: Color, k: PieceType| #[trigger] pieces(x, c, k) == pieces(b, c, k),
{
    assert forall|c: Color, k: PieceType| #[trigger] pieces(x, c, k) == pieces(b, c, k) by {
        assert forall|t: int| 0 <= t < 64 implies #[trigger] bit_set(pieces(x, c, k), t) == bit_set(
            pieces(b, c, k),
            t,
        ) by {
            lemma_rank_file(t);
        }
        lemma_bits_ext(pieces(x, c, k), pieces(b, c, k));
    }
}

/// The six fields of the FEN text of `b`, as bytes.
pub open spec fn fen_field_bytes(b: Board) -> Seq<Seq<u8>> {
    seq![
        ascii_bytes(placement_text(b, 7)),
        ascii_bytes(
            seq![
                if b.active_color == Color::White {
                    'w'
                } else {
                    'b'
                },
            ],
        ),
        ascii_bytes(castling_text(b.castling_rights)),
        ascii_bytes(en_passant_text(b.en_passant_target)),
        ascii_bytes(decimal_text(b.half_move_clock as nat)),
        ascii_bytes(decimal_text(b.full_move_number as nat)),
    ]
}

/// Printable text is ASCII.
proof fn lemma_spaced_ascii(a: Seq<char>, rest: Seq<char>)
    requires
        field_chars(a),
        is_ascii_chars(rest),
    ensures
        is_ascii_chars(a + seq![' '] + rest),
{
    let t = a + seq![' '] + rest;
    assert forall|i: int| 0 <= i < t.len() implies '\0' <= #[trigger] t[i] <= '\u{7f}' by {
        if i < a.len() {
            assert(t[i] == a[i]);
            assert(field_char(a[i]));
        } else if i == a.len() {
            assert(t[i] == ' ');
        } else {
            assert(t[i] == rest[i - a.len() - 1]);
        }
    }
}

/// The texts of the six FEN fields of `b`.
pub open spec fn fen_parts(b: Board) -> Seq<Seq<char>> {
    seq![
        placement_text(b, 7),
        seq![
            if b.active_color == Color::White {
                'w'
            } else {
                'b'
            },
        ],
        castling_text(b.castling_rights),
        en_passant_text(b.en_passant_target),
        decimal_text(b.half_move_clock as nat),
        decimal_text(b.full_move_number as nat),
    ]
}

proof fn lemma_fen_parts(b: Board)
    requires
        b.castling_rights <= 15,
    ensures
        forall|i: int| 0 <= i < 6 ==> #[trigger] field_chars(fen_parts(b)[i]) && fen_parts(b)[i].len()
            > 0,
        fen_text(b) =~= fen_parts(b)[0] + seq![' '] + (fen_parts(b)[1] + seq![' '] + (fen_parts(
            b,
        )[2] + seq![' '] + (fen_parts(b)[3] + seq![' '] + (fen_parts(b)[4] + seq![' ']
            + fen_parts(b)[5])))),
{
    lemma_placement_chars(b, 7);
    lemma_castling_chars(b.castling_rights);
    let rights = b.castling_rights;
    assert(rights <= 15 ==> (rights == 0 || rights & 15 != 0)) by (bit_vector);
    lemma_en_passant_chars(b.en_passant_target);
    lemma_decimal_chars(b.half_move_clock as nat);
    lemma_decimal_chars(b.full_move_number as nat);
    assert(field_chars(fen_parts(b)[1]));
}

/// The FEN text of `b` is ASCII, so its UTF-8 bytes are its characters.
proof fn lemma_fen_ascii(b: Board)
    requires
        b.castling_rights <= 15,
    ensures
        encode_utf8(fen_text(b)) == ascii_bytes(fen_text(b)),
{
    lemma_fen_parts(b);
    let q = fen_parts(b);
    let sp = seq![' '];
    let r1 = q[4] + sp + q[5];
    let r2 = q[3] + sp + r1;
    let r3 = q[2] + sp + r2;
    let r4 = q[1] + sp + r3;
    assert(field_chars(q[5]));
    assert(is_ascii_chars(q[5]));
    lemma_spaced_ascii(q[4], q[5]);
    lemma_spaced_ascii(q[3], r1);
    lemma_spaced_ascii(q[2], r2);
    lemma_spaced_ascii(q[1], r3);
    lemma_spaced_ascii(q[0], r4);
    is_ascii_chars_encode_utf8(fen_text(b));
    assert(encode_utf8(fen_text(b)) =~= ascii_bytes(fen_text(b)));
}

proof fn lemma_spaced_bytes(a: Seq<char>, rest: Seq<char>)
    ensures
        ascii_bytes(a + seq![' '] + rest) == ascii_bytes(a) + seq![32u8] + ascii_bytes(rest),
{
    lemma_ascii_bytes_concat(a, seq![' ']);
    lemma_ascii_bytes_concat(a + seq![' '], rest);
    assert(ascii_bytes(seq![' ']) =~= seq![32u8]);
}

/// The bytes of the FEN text of `b` split into its six fields.
proof fn lemma_fen_fields(b: Board)
    requires
        b.castling_rights <= 15,
    ensures
        fields(encode_utf8(fen_text(b))) == fen_field_bytes(b),
{
    lemma_fen_parts(b);
    lemma_fen_ascii(b);
    let q = fen_parts(b);
    let sp = seq![' '];
    let r1 = q[4] + sp + q[5];
    let r2 = q[3] + sp + r1;
    let r3 = q[2] + sp + r2;
    let r4 = q[1] + sp + r3;
    let s32 = seq![32u8];
    lemma_spaced_bytes(q[4], q[5]);
    lemma_spaced_bytes(q[3], r1);
    lemma_spaced_bytes(q[2], r2);
    lemma_spaced_bytes(q[1], r3);
    lemma_spaced_bytes(q[0], r4);
    assert(field_chars(q[0]) && field_chars(q[1]) && field_chars(q[2]) && field_chars(q[3])
        && field_chars(q[4]) && field_chars(q[5]));
    lemma_field_bytes(q[0]);
    lemma_field_bytes(q[1]);
    lemma_field_bytes(q[2]);
    lemma_field_bytes(q[3]);
    lemma_field_bytes(q[4]);
    lemma_field_bytes(q[5]);
    lemma_fields_single(ascii_bytes(q[5]));
    lemma_fields_spaced(ascii_bytes(q[4]), ascii_bytes(q[5]));
    lemma_fields_spaced(ascii_bytes(q[3]), ascii_bytes(r1));
    lemma_fields_spaced(ascii_bytes(q[2]), ascii_bytes(r2));
    lemma_fields_spaced(ascii_bytes(q[1]), ascii_bytes(r3));
    lemma_fields_spaced(ascii_bytes(q[0]), ascii_bytes(r4));
    assert(fields(ascii_bytes(fen_text(b))) =~= fen_field_bytes(b));
}

/// The FEN text of a position reads back as the same position.
pub proof fn lemma_fen_round_trip(b: Board)
    requires
        fen_representable(b),
    ensures
        parse_fen(encode_utf8(fen_text(b))) == Ok::<Board, FenErrorView>(b),
{
    lemma_fen_fields(b);
    let f = fen_field_bytes(b);
    let bc = f[1];
    lemma_placement_round_trip(b);
    let x = parse_placement(Board::empty_spec(), f[0])->Ok_0;
    lemma_same_pieces(x, b);
    lemma_castling_round_trip(b.castling_rights);
    lemma_en_passant_round_trip(b.en_passant_target);
    lemma_number_round_trip(b.half_move_clock as nat, 255);
    lemma_number_round_trip(b.full_move_number as nat, 65535);
    if b.active_color == Color::White {
        assert(bc =~= seq![119u8]);
    } else {
        assert(bc =~= seq![98u8]);
        assert(bc != seq![119u8]) by {
            assert(bc[0] == 98);
        }
    }
    let result = with_occupancies(
        Board {
            active_color: b.active_color,
            castling_rights: b.castling_rights,
            en_passant_target: b.en_passant_target,
            half_move_clock: b.half_move_clock,
            full_move_number: b.full_move_number,
            ..x
        },
    );
    assert(parse_state(x, f) == Ok::<Board, FenErrorView>(result));
    assert(pieces(x, Color::White, PieceType::Pawn) == b.white_pawns);
    assert(pieces(x, Color::White, PieceType::Knight) == b.white_knights);
    assert(pieces(x, Color::White, PieceType::Bishop) == b.white_bishops);
    assert(pieces(x, Color::White, PieceType::Rook) == b.white_rooks);
    assert(pieces(x, Color::White, PieceType::Queen) == b.white_queens);
    assert(pieces(x, Color::White, PieceType::King) == b.white_king);
    assert(pieces(x, Color::Black, PieceType::Pawn) == b.black_pawns);
    assert(pieces(x, Color::Black, PieceType::Knight) == b.black_knights);
    assert(pieces(x, Color::Black, PieceType::Bishop) == b.black_bishops);
    assert(pieces(x, Color::Black, PieceType::Rook) == b.black_rooks);
    assert(pieces(x, Color::Black, PieceType::Queen) == b.black_queens);
    assert(pieces(x, Color::Black, PieceType::King) == b.black_king);
    assert(result == b);
}

/// A canonical FEN text (one that printing a position gives) reads as a position that
/// prints back as the same text.
pub proof fn lemma_fen_read_print(b: Board)
    requires
        fen_representable(b),
    ensures
        parse_fen(encode_utf8(fen_text(b))) matches Ok(c) && fen_text(c) == fen_text(b),
{
    lemma_fen_round_trip(b);
}

} // verus!
