pub mod bitboard;
pub mod board;
pub mod attacks;
pub mod constants;
pub mod error;
pub mod eval;
pub mod eval_laws;
pub mod fen;
pub mod fen_parse;
pub mod fen_laws;
pub mod magics;
pub mod magic_tables;
pub mod make_move;
pub mod search;
pub mod movegen;
pub mod notation;
pub mod tt;
pub mod types;
pub mod zobrist;

use vstd::prelude::*;

verus! {

/// Adds two 64-bit integers; the sum must fit in a `u64`.
pub fn add(left: u64, right: u64) -> (r: u64)
    requires
        left + right <= u64::MAX,
    ensures
        r == left + right,
{
    left + right
}

} // verus!
