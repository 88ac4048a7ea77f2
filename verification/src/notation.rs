use vstd::prelude::*;
use vstd::string::StringExecFns;
use crate::error::{FenError, FenErrorView};
use crate::fen::{decimal_text, push_char, push_decimal};
use crate::types::{Move, PieceType};

verus! {

/// The coordinate text of a square number: file letter from 'a', then rank digit from '1'.
pub open spec fn square_text(sq: u8) -> Seq<char> {
    seq![((sq % 8) + 97) as char, ((sq / 8) + 49) as char]
}

/// The promotion suffix of a move: q, r, b or n, and nothing for no promotion (or a king).
pub open spec fn promotion_text(p: Option<PieceType>) -> Seq<char> {
    match p {
        Some(PieceType::Queen) => seq!['q'],
        Some(PieceType::Rook) => seq!['r'],
        Some(PieceType::Bishop) => seq!['b'],
        Some(PieceType::Knight) => seq!['n'],
        _ => Seq::empty(),
    }
}

/// Appends the coordinate text of `sq`.
fn push_square(s: &mut String, sq: u8)
    ensures
        final(s)@ == old(s)@ + square_text(sq),
{
    push_char(s, ((sq % 8) + 97) as char);
    push_char(s, ((sq / 8) + 49) as char);
    assert(final(s)@ =~= old(s)@ + square_text(sq));
}

impl Move {
    /// The source and target squares in coordinate notation, such as "e2e4".
    pub fn squares_text(&self) -> (r: String)
        ensures
            r@ == square_text(self.source) + square_text(self.target),
    {
        let mut s = String::new();
        push_square(&mut s, self.source);
        push_square(&mut s, self.target);
        assert(s@ =~= square_text(self.source) + square_text(self.target));
        s
    }

    /// The move in coordinate notation with its promotion letter, such as "e7e8q".
    pub fn to_uci(&self) -> (r: String)
        ensures
            r@ == square_text(self.source) + square_text(self.target) + promotion_text(
                self.promotion,
            ),
    {
        let mut s = self.squares_text();
        match self.promotion {
            Some(PieceType::Queen) => push_char(&mut s, 'q'),
            Some(PieceType::Rook) => push_char(&mut s, 'r'),
            Some(PieceType::Bishop) => push_char(&mut s, 'b'),
            Some(PieceType::Knight) => push_char(&mut s, 'n'),
            _ => {},
        }
        assert(s@ =~= square_text(self.source) + square_text(self.target) + promotion_text(
            self.promotion,
        ));
        s
    }
}

/// How a search score reads: a mate found, a mate against the side to move, or a score in
/// centipawns.
#[derive(Debug, Clone, Copy, PartialEq, Eq, Structural)]
pub enum ScoreVerdict {
    MateFound,
    GettingMated,
    Centipawns(i32),
}

/// Reads a search score: above 48000 a mate was found, below -48000 the side to move is
/// mated, otherwise it is a score in centipawns.
pub fn score_verdict(score: i32) -> (r: ScoreVerdict)
    ensures
        r == (if score > 48_000 {
            ScoreVerdict::MateFound
        } else if score < -48_000 {
            ScoreVerdict::GettingMated
        } else {
            ScoreVerdict::Centipawns(score)
        }),
{
    if score > 48_000 {
        ScoreVerdict::MateFound
    } else if score < -48_000 {
        ScoreVerdict::GettingMated
    } else {
        ScoreVerdict::Centipawns(score)
    }
}

/// The message of a FEN error.
pub open spec fn fen_error_text(e: FenErrorView) -> Seq<char> {
    match e {
        FenErrorView::MissingField(f) => "Missing FEN field: "@ + f,
        FenErrorView::InvalidRanksCount(n) => "Expected 8 ranks, found "@ + decimal_text(n as nat),
        FenErrorView::InvalidEmptySquares(n) => "Invalid empty squares count: "@ + decimal_text(
            n as nat,
        ),
        FenErrorView::TooManyFilesInRank(r) => "Rank "@ + decimal_text(r as nat)
            + " has more than 8 files"@,
        FenErrorView::InvalidFileCountInRank(r) => "Rank "@ + decimal_text(r as nat)
            + " has fewer than 8 files"@,
        FenErrorView::InvalidCharacter(c) => "Invalid board character: '"@ + seq![c] + "'"@,
        FenErrorView::InvalidColor(t) => "Invalid active color: '"@ + t + "'"@,
        FenErrorView::InvalidCastlingCharacter(c) => "Invalid castling character: '"@ + seq![c]
            + "'"@,
        FenErrorView::InvalidEnPassantTarget(t) => "Invalid en passant target: '"@ + t + "'"@,
        FenErrorView::InvalidHalfMoveClock(t) => "Invalid half-move clock: '"@ + t + "'"@,
        FenErrorView::InvalidFullMoveNumber(t) => "Invalid full-move number: '"@ + t + "'"@,
    }
}

impl FenError {
    /// The error's message (see `fen_error_text`).
    pub fn message(&self) -> (r: String)
        ensures
            r@ == fen_error_text(self@),
    {
        let mut s = String::new();
        match self {
            FenError::MissingField(field) => {
                s.append("Missing FEN field: ");
                s.append(field);
            },
            FenError::InvalidRanksCount(count) => {
                s.append("Expected 8 ranks, found ");
                push_decimal(&mut s, *count as u64);
            },
            FenError::InvalidEmptySquares(value) => {
                s.append("Invalid empty squares count: ");
                push_decimal(&mut s, *value as u64);
            },
            FenError::TooManyFilesInRank(rank) => {
                s.append("Rank ");
                push_decimal(&mut s, *rank as u64);
                s.append(" has more than 8 files");
            },
            FenError::InvalidFileCountInRank(rank) => {
                s.append("Rank ");
                push_decimal(&mut s, *rank as u64);
                s.append(" has fewer than 8 files");
            },
            FenError::InvalidCharacter(c) => {
                s.append("Invalid board character: '");
                push_char(&mut s, *c);
                s.append("'");
            },
            FenError::InvalidColor(text) => {
                s.append("Invalid active color: '");
                s.append(text.as_str());
                s.append("'");
            },
            FenError::InvalidCastlingCharacter(c) => {
                s.append("Invalid castling character: '");
                push_char(&mut s, *c);
                s.append("'");
            },
            FenError::InvalidEnPassantTarget(text) => {
                s.append("Invalid en passant target: '");
                s.append(text.as_str());
                s.append("'");
            },
            FenError::InvalidHalfMoveClock(text) => {
                s.append("Invalid half-move clock: '");
                s.append(text.as_str());
                s.append("'");
            },
            FenError::InvalidFullMoveNumber(text) => {
                s.append("Invalid full-move number: '");
                s.append(text.as_str());
                s.append("'");
            },
        }
        assert(s@ =~= fen_error_text(self@));
        s
    }
}

} // verus!
