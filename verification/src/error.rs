use vstd::prelude::*;

verus! {

/// Why a FEN text was rejected.
#[derive(Debug, Clone, PartialEq, Eq)]
pub enum FenError {
    MissingField(&'static str),
    InvalidRanksCount(usize),
    InvalidEmptySquares(u8),
    /// A rank (numbered from 1) whose squares run past the eighth file.
    TooManyFilesInRank(u32),
    /// A rank (numbered from 1) that ends before its eighth file.
    InvalidFileCountInRank(u32),
    InvalidCharacter(char),
    InvalidColor(String),
    InvalidCastlingCharacter(char),
    InvalidEnPassantTarget(String),
    InvalidHalfMoveClock(String),
    InvalidFullMoveNumber(String),
}

/// A `FenError` with its texts as character sequences.
pub enum FenErrorView {
    MissingField(Seq<char>),
    InvalidRanksCount(usize),
    InvalidEmptySquares(u8),
    TooManyFilesInRank(u32),
    InvalidFileCountInRank(u32),
    InvalidCharacter(char),
    InvalidColor(Seq<char>),
    InvalidCastlingCharacter(char),
    InvalidEnPassantTarget(Seq<char>),
    InvalidHalfMoveClock(Seq<char>),
    InvalidFullMoveNumber(Seq<char>),
}

impl View for FenError {
    type V = FenErrorView;

    open spec fn view(&self) -> FenErrorView {
        match self {
            FenError::MissingField(f) => FenErrorView::MissingField(f@),
            FenError::InvalidRanksCount(n) => FenErrorView::InvalidRanksCount(*n),
            FenError::InvalidEmptySquares(n) => FenErrorView::InvalidEmptySquares(*n),
            FenError::TooManyFilesInRank(r) => FenErrorView::TooManyFilesInRank(*r),
            FenError::InvalidFileCountInRank(r) => FenErrorView::InvalidFileCountInRank(*r),
            FenError::InvalidCharacter(c) => FenErrorView::InvalidCharacter(*c),
            FenError::InvalidColor(s) => FenErrorView::InvalidColor(s@),
            FenError::InvalidCastlingCharacter(c) => FenErrorView::InvalidCastlingCharacter(*c),
            FenError::InvalidEnPassantTarget(s) => FenErrorView::InvalidEnPassantTarget(s@),
            FenError::InvalidHalfMoveClock(s) => FenErrorView::InvalidHalfMoveClock(s@),
            FenError::InvalidFullMoveNumber(s) => FenErrorView::InvalidFullMoveNumber(s@),
        }
    }
}

} // verus!
