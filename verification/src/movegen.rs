use vstd::prelude::*;
use crate::attacks::{get_knight_attacks, get_king_attacks, knight_step, king_step};
use crate::bitboard::{
    bit_set, group_bits, squares_of, squares_spec, squares_where, lemma_squares_where,
    lemma_squares_where_ext, pop_count_spec, count_below, lemma_count_below_mono,
};
use crate::board::{Board, pieces, square_attacked, color_union, piece_at};
use crate::constants::{
    A_FILE, H_FILE, RANK_4, RANK_5, WK_CASTLING, WQ_CASTLING, BK_CASTLING, BQ_CASTLING,
    WK_EMPTY_MASK, WQ_EMPTY_MASK, BK_EMPTY_MASK, BQ_EMPTY_MASK, group_mask_squares,
};
use vstd::std_specs::bits::{u64_trailing_zeros, axiom_u64_trailing_zeros};
use crate::magics::{get_bishop_attacks, get_rook_attacks, get_queen_attacks, bishop_attack, rook_attack};
use crate::make_move::{
    board_after, move_ok, single_occupancy, empty_square, move_fits, moving_kind, captured_kind,
    is_en_passant, en_passant_victim, move_distance, castling_fits,
    lemma_make_move_single_occupancy, lemma_pieces_after, lemma_term_bits, lemma_rook_bits,
};
use crate::types::{Color, Move, MoveList, PieceType, opponent};

verus! {

/// The concatenation of `f(x)` over the elements `x` of `s`, in order.
pub open spec fn flat(s: Seq<u8>, f: spec_fn(u8) -> Seq<Move>) -> Seq<Move>
    decreases s.len(),
{
    if s.len() == 0 {
        Seq::empty()
    } else {
        flat(s.drop_last(), f) + f(s.last())
    }
}

proof fn lemma_flat_step(s: Seq<u8>, f: spec_fn(u8) -> Seq<Move>, i: int)
    requires
        0 <= i < s.len(),
    ensures
        flat(s.take(i + 1), f) == flat(s.take(i), f) + f(s[i]),
{
    assert(s.take(i + 1).drop_last() =~= s.take(i));
}

proof fn lemma_flat_len_mono(s: Seq<u8>, f: spec_fn(u8) -> Seq<Move>, i: int, j: int)
    requires
        0 <= i <= j <= s.len(),
    ensures
        flat(s.take(i), f).len() + f(s[i]).len() <= flat(s.take(j), f).len() || i == j,
        flat(s.take(i), f).len() <= flat(s.take(j), f).len(),
    decreases j - i,
{
    if i < j {
        lemma_flat_step(s, f, j - 1);
        lemma_flat_len_mono(s, f, i, j - 1);
        if i < j - 1 {
            lemma_flat_step(s, f, i);
            lemma_flat_len_mono(s, f, i + 1, j - 1);
        }
    }
}

/// The moves to the squares of `targets`, each from `target - delta` (`up`) or
/// `target + delta`; when `promotes`, a move onto the last rank becomes four promotions
/// (queen, rook, bishop, knight).
pub open spec fn pawn_target_moves(target: u8, up: bool, delta: int, promotes: bool) -> Seq<Move> {
    let source = (if up {
        target - delta
    } else {
        target + delta
    }) as u8;
    let last_rank = if up {
        target >= 56
    } else {
        target <= 7
    };
    if promotes && last_rank {
        seq![
            Move { source, target, promotion: Some(PieceType::Queen) },
            Move { source, target, promotion: Some(PieceType::Rook) },
            Move { source, target, promotion: Some(PieceType::Bishop) },
            Move { source, target, promotion: Some(PieceType::Knight) },
        ]
    } else {
        seq![Move { source, target, promotion: None }]
    }
}

/// `pawn_target_moves` as a function of the target.
pub open spec fn pawn_fn(up: bool, delta: int, promotes: bool) -> spec_fn(u8) -> Seq<Move> {
    |t: u8| pawn_target_moves(t, up, delta, promotes)
}

/// All moves onto the squares of `targets` (in increasing target order), see
/// `pawn_target_moves`.
pub open spec fn pawn_moves_to(targets: u64, up: bool, delta: int, promotes: bool) -> Seq<Move> {
    flat(squares_spec(targets), pawn_fn(up, delta, promotes))
}

/// The moves of a piece from `source` to each of `targets`, in order.
pub open spec fn moves_from(source: u8, targets: Seq<u8>) -> Seq<Move> {
    targets.map_values(|t: u8| Move { source, target: t, promotion: None })
}

/// The squares a piece of kind `k` on `s` attacks on board `b`.
pub open spec fn piece_attacks(b: Board, k: PieceType, s: int, t: int) -> bool {
    match k {
        PieceType::Knight => knight_step(s, t),
        PieceType::King => king_step(s, t),
        PieceType::Bishop => bishop_attack(s, b.all_occupancy, t),
        PieceType::Rook => rook_attack(s, b.all_occupancy, t),
        PieceType::Queen => bishop_attack(s, b.all_occupancy, t) || rook_attack(
            s,
            b.all_occupancy,
            t,
        ),
        PieceType::Pawn => false,
    }
}

/// The target squares of a piece of kind `k` on `s`: attacked squares not in `own`.
pub open spec fn piece_targets(b: Board, k: PieceType, s: u8, own: u64) -> Seq<u8> {
    squares_where(|t: int| piece_attacks(b, k, s as int, t) && !bit_set(own, t), 64)
}

/// The moves of a piece of kind `k` from a given source.
pub open spec fn piece_fn(b: Board, k: PieceType, own: u64) -> spec_fn(u8) -> Seq<Move> {
    |s: u8| moves_from(s, piece_targets(b, k, s, own))
}

/// The moves of the pieces of kind `k` in `sources`: for each source in increasing
/// order, one move to each target in increasing order.
pub open spec fn piece_moves(b: Board, k: PieceType, sources: u64, own: u64) -> Seq<Move> {
    flat(squares_spec(sources), piece_fn(b, k, own))
}

/// The occupancy of the side to move.
pub open spec fn own_occupancy(b: Board) -> u64 {
    if b.active_color == Color::White {
        b.white_occupancy
    } else {
        b.black_occupancy
    }
}

/// The moves of the side to move's pieces of kind `k`.
pub open spec fn kind_moves(b: Board, k: PieceType) -> Seq<Move> {
    piece_moves(b, k, pieces(b, b.active_color, k), own_occupancy(b))
}

/// White pawns' single pushes: targets one rank up that are empty.
pub open spec fn white_single_pushes(b: Board) -> u64 {
    (b.white_pawns << 8u64) & !b.all_occupancy
}

/// Black pawns' single pushes: targets one rank down that are empty.
pub open spec fn black_single_pushes(b: Board) -> u64 {
    (b.black_pawns >> 8u64) & !b.all_occupancy
}

/// The moves of White's pawns: single pushes, double pushes to the fourth rank, captures to
/// the upper-left and upper-right, then en-passant captures in the same two directions; a
/// push or capture onto the eighth rank becomes four promotions.
pub open spec fn white_pawn_moves(b: Board) -> Seq<Move> {
    let single = white_single_pushes(b);
    pawn_moves_to(single, true, 8, true) + pawn_moves_to(
        (single << 8u64) & !b.all_occupancy & RANK_4,
        true,
        16,
        false,
    ) + pawn_moves_to(((b.white_pawns & !A_FILE) << 7u64) & b.black_occupancy, true, 7, true)
        + pawn_moves_to(((b.white_pawns & !H_FILE) << 9u64) & b.black_occupancy, true, 9, true)
        + pawn_moves_to(((b.white_pawns & !A_FILE) << 7u64) & b.en_passant_target, true, 7, false)
        + pawn_moves_to(((b.white_pawns & !H_FILE) << 9u64) & b.en_passant_target, true, 9, false)
}

/// The moves of Black's pawns: single pushes, double pushes to the fifth rank, captures to
/// the lower-right and lower-left, then en-passant captures in the same two directions; a
/// push or capture onto the first rank becomes four promotions.
pub open spec fn black_pawn_moves(b: Board) -> Seq<Move> {
    let single = black_single_pushes(b);
    pawn_moves_to(single, false, 8, true) + pawn_moves_to(
        (single >> 8u64) & !b.all_occupancy & RANK_5,
        false,
        16,
        false,
    ) + pawn_moves_to(((b.black_pawns & !H_FILE) >> 7u64) & b.white_occupancy, false, 7, true)
        + pawn_moves_to(((b.black_pawns & !A_FILE) >> 9u64) & b.white_occupancy, false, 9, true)
        + pawn_moves_to(((b.black_pawns & !H_FILE) >> 7u64) & b.en_passant_target, false, 7, false)
        + pawn_moves_to(((b.black_pawns & !A_FILE) >> 9u64) & b.en_passant_target, false, 9, false)
}

/// The castling move from `from` to `to` is available: the right is held, the squares
/// between king and rook are empty, and neither the king's square nor the two squares it
/// crosses into are attacked by the enemy.
pub open spec fn can_castle(b: Board, right: u8, empty: u64, from: int, via: int, to: int) -> bool {
    &&& b.castling_rights & right != 0
    &&& b.all_occupancy & empty == 0
    &&& !square_attacked(b, from, opponent(b.active_color))
    &&& !square_attacked(b, via, opponent(b.active_color))
    &&& !square_attacked(b, to, opponent(b.active_color))
}

/// A castling move when it is available, otherwise nothing.
pub open spec fn castle_if(ok: bool, source: u8, target: u8) -> Seq<Move> {
    if ok {
        seq![Move { source, target, promotion: None }]
    } else {
        Seq::empty()
    }
}

/// The castling moves of the side to move: king side, then queen side.
pub open spec fn castling_moves(b: Board) -> Seq<Move> {
    if b.active_color == Color::White {
        castle_if(can_castle(b, WK_CASTLING, WK_EMPTY_MASK, 4, 5, 6), 4, 6) + castle_if(
            can_castle(b, WQ_CASTLING, WQ_EMPTY_MASK, 4, 3, 2),
            4,
            2,
        )
    } else {
        castle_if(can_castle(b, BK_CASTLING, BK_EMPTY_MASK, 60, 61, 62), 60, 62) + castle_if(
            can_castle(b, BQ_CASTLING, BQ_EMPTY_MASK, 60, 59, 58),
            60,
            58,
        )
    }
}

/// The pseudo-legal moves: pawn, knight, bishop, rook, queen and king moves, then castling.
pub open spec fn pseudo_legal_moves(b: Board) -> Seq<Move> {
    (if b.active_color == Color::White {
        white_pawn_moves(b)
    } else {
        black_pawn_moves(b)
    }) + kind_moves(b, PieceType::Knight) + kind_moves(b, PieceType::Bishop) + kind_moves(
        b,
        PieceType::Rook,
    ) + kind_moves(b, PieceType::Queen) + kind_moves(b, PieceType::King) + castling_moves(b)
}

/// The square of the side to move's king (the lowest one if there are several).
pub open spec fn king_square(b: Board) -> int {
    u64_trailing_zeros(pieces(b, b.active_color, PieceType::King)) as int
}

/// Where the side to move's king stands after `mv`.
pub open spec fn king_square_after(b: Board, mv: Move) -> int {
    if mv.source == king_square(b) as u8 {
        mv.target as int
    } else {
        king_square(b)
    }
}

/// After `mv` the mover's king is not attacked.
pub open spec fn leaves_king_safe(b: Board, mv: Move) -> bool {
    !square_attacked(board_after(b, mv), king_square_after(b, mv), opponent(b.active_color))
}

/// The moves of `ms` that leave the mover's king safe, in order.
pub open spec fn safe_moves(b: Board, ms: Seq<Move>) -> Seq<Move>
    decreases ms.len(),
{
    if ms.len() == 0 {
        Seq::empty()
    } else {
        safe_moves(b, ms.drop_last()) + if leaves_king_safe(b, ms.last()) {
            seq![ms.last()]
        } else {
            Seq::empty()
        }
    }
}

/// The legal moves: the pseudo-legal moves that leave the mover's king safe, in order.
pub open spec fn legal_moves(b: Board) -> Seq<Move> {
    safe_moves(b, pseudo_legal_moves(b))
}

/// Move generation on `b` cannot overflow or fail: at most 256 pseudo-legal moves, a king of
/// the side to move to test them against if there is any, and each pseudo-legal move can be
/// applied.
pub open spec fn movegen_ok(b: Board) -> bool {
    &&& pseudo_legal_moves(b).len() <= 256
    &&& pseudo_legal_moves(b).len() > 0 ==> pieces(b, b.active_color, PieceType::King) != 0
    &&& forall|i: int| 0 <= i < pseudo_legal_moves(b).len() ==> move_ok(b, #[trigger] pseudo_legal_moves(b)[i])
}

proof fn lemma_safe_moves_len(b: Board, ms: Seq<Move>)
    ensures
        safe_moves(b, ms).len() <= ms.len(),
    decreases ms.len(),
{
    if ms.len() > 0 {
        lemma_safe_moves_len(b, ms.drop_last());
    }
}

/// Every legal move is a pseudo-legal move.
pub proof fn lemma_legal_in_pseudo(b: Board)
    ensures
        forall|m: Move| #[trigger] legal_moves(b).contains(m) ==> pseudo_legal_moves(b).contains(m),
{
    lemma_safe_moves_subset(b, pseudo_legal_moves(b));
}

proof fn lemma_safe_moves_subset(b: Board, ms: Seq<Move>)
    ensures
        forall|m: Move| #[trigger] safe_moves(b, ms).contains(m) ==> ms.contains(m),
    decreases ms.len(),
{
    if ms.len() > 0 {
        lemma_safe_moves_subset(b, ms.drop_last());
        assert forall|m: Move| #[trigger] safe_moves(b, ms).contains(m) implies ms.contains(m) by {
            let prev = safe_moves(b, ms.drop_last());
            let k = choose|k: int| 0 <= k < safe_moves(b, ms).len() && safe_moves(b, ms)[k] == m;
            if k < prev.len() {
                assert(prev[k] == m);
                assert(prev.contains(m));
                let j = choose|j: int| 0 <= j < ms.drop_last().len() && ms.drop_last()[j] == m;
                assert(ms[j] == m);
            } else {
                assert(m == ms.last());
                assert(ms[ms.len() - 1] == m);
            }
        }
    }
}

/// Every pseudo-legal move of a position where move generation is safe can be applied.
pub proof fn lemma_legal_move_ok(b: Board, m: Move)
    requires
        movegen_ok(b),
        legal_moves(b).contains(m),
    ensures
        move_ok(b, m),
{
    lemma_legal_in_pseudo(b);
    let k = choose|k: int| 0 <= k < pseudo_legal_moves(b).len() && pseudo_legal_moves(b)[k] == m;
    assert(move_ok(b, pseudo_legal_moves(b)[k]));
}

/// A generator of the moves of one position.
pub struct MoveGenerator<'a> {
    board: &'a Board,
    pub moves: MoveList,
}

impl<'a> MoveGenerator<'a> {
    /// The position the moves are generated for.
    pub closed spec fn position(&self) -> Board {
        *self.board
    }

    /// The generated moves.
    pub closed spec fn generated(&self) -> Seq<Move> {
        self.moves@
    }

    /// The move list is within its capacity.
    pub closed spec fn list_wf(&self) -> bool {
        self.moves.wf()
    }

    /// A generator for `board` with an empty move list.
    pub fn new(board: &'a Board) -> (g: Self)
        ensures
            g.position() == *board,
            g.list_wf(),
            g.generated() == Seq::<Move>::empty(),
    {
        Self { board, moves: MoveList::new() }
    }

    /// Appends the moves onto each square of `targets` (see `pawn_moves_to`).
    fn push_pawn_targets(&mut self, targets: u64, up: bool, delta: u8, promotes: bool)
        requires
            old(self).moves.wf(),
            old(self).moves@.len() + pawn_moves_to(targets, up, delta as int, promotes).len() <= 256,
            forall|t: int|
                #[trigger] bit_set(targets, t) ==> (if up {
                    t >= delta
                } else {
                    t + delta < 64
                }),
        ensures
            final(self).moves.wf(),
            final(self).moves@ == old(self).moves@ + pawn_moves_to(targets, up, delta as int, promotes),
            final(self).position() == old(self).position(),
    {
        let ghost start = self.moves@;
        let ghost f = pawn_fn(up, delta as int, promotes);
        let squares = squares_of(targets);
        proof {
            lemma_squares_where(|t: int| bit_set(targets, t), 64);
            assert(squares@.take(squares@.len() as int) =~= squares@);
        }
        let mut i: usize = 0;
        while i < squares.len()
            invariant
                i <= squares.len(),
                squares@ == squares_spec(targets),
                f == pawn_fn(up, delta as int, promotes),
                self.moves.wf(),
                self.moves@ == start + flat(squares@.take(i as int), f),
                start.len() + flat(squares@, f).len() <= 256,
                squares@.take(squares@.len() as int) == squares@,
                forall|k: int| 0 <= k < squares@.len() ==> bit_set(targets, #[trigger] squares@[k] as int),
                forall|t: int|
                    #[trigger] bit_set(targets, t) ==> (if up {
                        t >= delta
                    } else {
                        t + delta < 64
                    }),
                self.position() == old(self).position(),
            decreases squares.len() - i,
        {
            let target = squares[i];
            proof {
                lemma_flat_step(squares@, f, i as int);
                lemma_flat_len_mono(squares@, f, i as int, squares@.len() as int);
                assert(bit_set(targets, target as int));
                assert(f(target) == pawn_target_moves(target, up, delta as int, promotes));
                assert(self.moves@.len() == self.moves.count);
            }
            let source = if up {
                target - delta
            } else {
                target + delta
            };
            let last_rank = if up {
                target >= 56
            } else {
                target <= 7
            };
            if promotes && last_rank {
                self.moves.push(Move { source, target, promotion: Some(PieceType::Queen) });
                self.moves.push(Move { source, target, promotion: Some(PieceType::Rook) });
                self.moves.push(Move { source, target, promotion: Some(PieceType::Bishop) });
                self.moves.push(Move { source, target, promotion: Some(PieceType::Knight) });
            } else {
                self.moves.push(Move { source, target, promotion: None });
            }
            proof {
                assert(self.moves@ =~= start + flat(squares@.take(i + 1), f));
            }
            i += 1;
        }
    }

    /// Appends a move from `source` to each square of `targets`, in increasing order.
    fn push_moves_from(&mut self, source: u8, targets: u64)
        requires
            old(self).moves.wf(),
            old(self).moves@.len() + squares_spec(targets).len() <= 256,
        ensures
            final(self).moves.wf(),
            final(self).moves@ == old(self).moves@ + moves_from(source, squares_spec(targets)),
            final(self).position() == old(self).position(),
    {
        let ghost start = self.moves@;
        let squares = squares_of(targets);
        let mut j: usize = 0;
        while j < squares.len()
            invariant
                j <= squares.len(),
                squares@ == squares_spec(targets),
                self.moves.wf(),
                self.moves@ == start + moves_from(source, squares@.take(j as int)),
                start.len() + squares@.len() <= 256,
                self.position() == old(self).position(),
            decreases squares.len() - j,
        {
            let target = squares[j];
            assert(self.moves@.len() == self.moves.count);
            self.moves.push(Move { source, target, promotion: None });
            proof {
                assert(moves_from(source, squares@.take(j + 1)) =~= moves_from(
                    source,
                    squares@.take(j as int),
                ).push(Move { source, target, promotion: None }));
            }
            j += 1;
        }
        proof {
            assert(squares@.take(squares@.len() as int) =~= squares@);
        }
    }

    /// Appends the moves of the pieces of kind `kind` on `sources`; the targets of each
    /// source are the squares its piece attacks minus `own`.
    fn push_piece_moves(&mut self, kind: PieceType, sources: u64, own: u64)
        requires
            kind != PieceType::Pawn,
            old(self).moves.wf(),
            old(self).moves@.len() + piece_moves(old(self).position(), kind, sources, own).len()
                <= 256,
        ensures
            final(self).moves.wf(),
            final(self).moves@ == old(self).moves@ + piece_moves(old(self).position(), kind, sources, own),
            final(self).position() == old(self).position(),
    {
        let ghost start = self.moves@;
        let ghost b = self.position();
        let ghost f = piece_fn(b, kind, own);
        let squares = squares_of(sources);
        proof {
            lemma_squares_where(|t: int| bit_set(sources, t), 64);
            assert(squares@.take(squares@.len() as int) =~= squares@);
        }
        let mut i: usize = 0;
        while i < squares.len()
            invariant
                i <= squares.len(),
                kind != PieceType::Pawn,
                squares@ == squares_spec(sources),
                b == self.position(),
                *self.board == b,
                f == piece_fn(b, kind, own),
                self.moves.wf(),
                self.moves@ == start + flat(squares@.take(i as int), f),
                start.len() + flat(squares@, f).len() <= 256,
                squares@.take(squares@.len() as int) == squares@,
                forall|k: int| 0 <= k < squares@.len() ==> #[trigger] squares@[k] < 64,
            decreases squares.len() - i,
        {
            let source = squares[i];
            proof {
                lemma_flat_step(squares@, f, i as int);
                lemma_flat_len_mono(squares@, f, i as int, squares@.len() as int);
            }
            let attacks = match kind {
                PieceType::Knight => get_knight_attacks(source),
                PieceType::King => get_king_attacks(source),
                PieceType::Bishop => get_bishop_attacks(source, self.board.all_occupancy),
                PieceType::Rook => get_rook_attacks(source, self.board.all_occupancy),
                _ => get_queen_attacks(source, self.board.all_occupancy),
            };
            let targets = attacks & !own;
            proof {
                broadcast use group_bits;

                assert forall|t: int| 0 <= t < 64 implies #[trigger] bit_set(targets, t) == (
                piece_attacks(b, kind, source as int, t) && !bit_set(own, t)) by {}
                lemma_squares_where_ext(
                    |t: int| bit_set(targets, t),
                    |t: int| piece_attacks(b, kind, source as int, t) && !bit_set(own, t),
                    64,
                );
                assert(f(source) == moves_from(source, squares_spec(targets)));
            }
            self.push_moves_from(source, targets);
            i += 1;
        }
    }

    /// Appends the moves of the side to move's knights.
    fn generate_knight_moves(&mut self)
        requires
            old(self).moves.wf(),
            old(self).moves@.len() + kind_moves(old(self).position(), PieceType::Knight).len() <= 256,
        ensures
            final(self).moves.wf(),
            final(self).moves@ == old(self).moves@ + kind_moves(old(self).position(), PieceType::Knight),
            final(self).position() == old(self).position(),
    {
        let (knights, occupancy) = if self.board.active_color == Color::White {
            (self.board.white_knights, self.board.white_occupancy)
        } else {
            (self.board.black_knights, self.board.black_occupancy)
        };
        self.push_piece_moves(PieceType::Knight, knights, occupancy);
    }

    /// Appends the moves of the side to move's bishops.
    fn generate_bishop_moves(&mut self)
        requires
            old(self).moves.wf(),
            old(self).moves@.len() + kind_moves(old(self).position(), PieceType::Bishop).len() <= 256,
        ensures
            final(self).moves.wf(),
            final(self).moves@ == old(self).moves@ + kind_moves(old(self).position(), PieceType::Bishop),
            final(self).position() == old(self).position(),
    {
        let (bishops, occupancy) = if self.board.active_color == Color::White {
            (self.board.white_bishops, self.board.white_occupancy)
        } else {
            (self.board.black_bishops, self.board.black_occupancy)
        };
        self.push_piece_moves(PieceType::Bishop, bishops, occupancy);
    }

    /// Appends the moves of the side to move's rooks.
    fn generate_rook_moves(&mut self)
        requires
            old(self).moves.wf(),
            old(self).moves@.len() + kind_moves(old(self).position(), PieceType::Rook).len() <= 256,
        ensures
            final(self).moves.wf(),
            final(self).moves@ == old(self).moves@ + kind_moves(old(self).position(), PieceType::Rook),
            final(self).position() == old(self).position(),
    {
        let (rooks, occupancy) = if self.board.active_color == Color::White {
            (self.board.white_rooks, self.board.white_occupancy)
        } else {
            (self.board.black_rooks, self.board.black_occupancy)
        };
        self.push_piece_moves(PieceType::Rook, rooks, occupancy);
    }

    /// Appends the moves of the side to move's queens.
    fn generate_queen_moves(&mut self)
        requires
            old(self).moves.wf(),
            old(self).moves@.len() + kind_moves(old(self).position(), PieceType::Queen).len() <= 256,
        ensures
            final(self).moves.wf(),
            final(self).moves@ == old(self).moves@ + kind_moves(old(self).position(), PieceType::Queen),
            final(self).position() == old(self).position(),
    {
        let (queens, occupancy) = if self.board.active_color == Color::White {
            (self.board.white_queens, self.board.white_occupancy)
        } else {
            (self.board.black_queens, self.board.black_occupancy)
        };
        self.push_piece_moves(PieceType::Queen, queens, occupancy);
    }

    /// Appends the moves of the side to move's kings.
    fn generate_king_moves(&mut self)
        requires
            old(self).moves.wf(),
            old(self).moves@.len() + kind_moves(old(self).position(), PieceType::King).len() <= 256,
        ensures
            final(self).moves.wf(),
            final(self).moves@ == old(self).moves@ + kind_moves(old(self).position(), PieceType::King),
            final(self).position() == old(self).position(),
    {
        let (king, occupancy) = if self.board.active_color == Color::White {
            (self.board.white_king, self.board.white_occupancy)
        } else {
            (self.board.black_king, self.board.black_occupancy)
        };
        self.push_piece_moves(PieceType::King, king, occupancy);
    }

    /// Appends White's pawn moves (see `white_pawn_moves`).
    fn generate_white_pawn_moves(&mut self)
        requires
            old(self).moves.wf(),
            old(self).moves@.len() + white_pawn_moves(old(self).position()).len() <= 256,
        ensures
            final(self).moves.wf(),
            final(self).moves@ == old(self).moves@ + white_pawn_moves(old(self).position()),
            final(self).position() == old(self).position(),
    {
        broadcast use group_bits, group_mask_squares;

        let ghost start = self.moves@;
        let board = self.board;
        let single_pushes = (board.white_pawns << 8u64) & !board.all_occupancy;
        self.push_pawn_targets(single_pushes, true, 8, true);
        let double_pushes = (single_pushes << 8u64) & !board.all_occupancy & RANK_4;
        self.push_pawn_targets(double_pushes, true, 16, false);
        let nw_attacks = ((board.white_pawns & !A_FILE) << 7u64) & board.black_occupancy;
        self.push_pawn_targets(nw_attacks, true, 7, true);
        let ne_attacks = ((board.white_pawns & !H_FILE) << 9u64) & board.black_occupancy;
        self.push_pawn_targets(ne_attacks, true, 9, true);
        let ep_nw = ((board.white_pawns & !A_FILE) << 7u64) & board.en_passant_target;
        self.push_pawn_targets(ep_nw, true, 7, false);
        let ep_ne = ((board.white_pawns & !H_FILE) << 9u64) & board.en_passant_target;
        self.push_pawn_targets(ep_ne, true, 9, false);
        proof {
            assert(self.moves@ =~= start + white_pawn_moves(*board));
        }
    }

    /// Appends Black's pawn moves (see `black_pawn_moves`).
    fn generate_black_pawn_moves(&mut self)
        requires
            old(self).moves.wf(),
            old(self).moves@.len() + black_pawn_moves(old(self).position()).len() <= 256,
        ensures
            final(self).moves.wf(),
            final(self).moves@ == old(self).moves@ + black_pawn_moves(old(self).position()),
            final(self).position() == old(self).position(),
    {
        broadcast use group_bits, group_mask_squares;

        let ghost start = self.moves@;
        let board = self.board;
        let single_pushes = (board.black_pawns >> 8u64) & !board.all_occupancy;
        self.push_pawn_targets(single_pushes, false, 8, true);
        let double_pushes = (single_pushes >> 8u64) & !board.all_occupancy & RANK_5;
        self.push_pawn_targets(double_pushes, false, 16, false);
        let se_attacks = ((board.black_pawns & !H_FILE) >> 7u64) & board.white_occupancy;
        self.push_pawn_targets(se_attacks, false, 7, true);
        let sw_attacks = ((board.black_pawns & !A_FILE) >> 9u64) & board.white_occupancy;
        self.push_pawn_targets(sw_attacks, false, 9, true);
        let ep_se = ((board.black_pawns & !H_FILE) >> 7u64) & board.en_passant_target;
        self.push_pawn_targets(ep_se, false, 7, false);
        let ep_sw = ((board.black_pawns & !A_FILE) >> 9u64) & board.en_passant_target;
        self.push_pawn_targets(ep_sw, false, 9, false);
        proof {
            assert(self.moves@ =~= start + black_pawn_moves(*board));
        }
    }

    /// Appends the available castling moves of the side to move (see `castling_moves`).
    fn generate_castling_moves(&mut self)
        requires
            old(self).moves.wf(),
            old(self).moves@.len() + castling_moves(old(self).position()).len() <= 256,
        ensures
            final(self).moves.wf(),
            final(self).moves@ == old(self).moves@ + castling_moves(old(self).position()),
            final(self).position() == old(self).position(),
    {
        let ghost start = self.moves@;
        let board = self.board;
        match board.active_color {
            Color::White => {
                let enemy_color = Color::Black;
                if (board.castling_rights & WK_CASTLING) != 0 && (board.all_occupancy
                    & WK_EMPTY_MASK) == 0 && !board.is_square_attacked(4, enemy_color)
                    && !board.is_square_attacked(5, enemy_color) && !board.is_square_attacked(
                    6,
                    enemy_color,
                ) {
                    assert(self.moves@.len() == self.moves.count);
                    self.moves.push(Move { source: 4, target: 6, promotion: None });
                }
                let ghost mid = self.moves@;
                assert(mid == start + castle_if(can_castle(*board, WK_CASTLING, WK_EMPTY_MASK, 4, 5, 6), 4, 6));
                if (board.castling_rights & WQ_CASTLING) != 0 && (board.all_occupancy
                    & WQ_EMPTY_MASK) == 0 && !board.is_square_attacked(4, enemy_color)
                    && !board.is_square_attacked(3, enemy_color) && !board.is_square_attacked(
                    2,
                    enemy_color,
                ) {
                    assert(self.moves@.len() == self.moves.count);
                    self.moves.push(Move { source: 4, target: 2, promotion: None });
                }
                assert(self.moves@ =~= start + castling_moves(*board));
            },
            Color::Black => {
                let enemy_color = Color::White;
                if (board.castling_rights & BK_CASTLING) != 0 && (board.all_occupancy
                    & BK_EMPTY_MASK) == 0 && !board.is_square_attacked(60, enemy_color)
                    && !board.is_square_attacked(61, enemy_color) && !board.is_square_attacked(
                    62,
                    enemy_color,
                ) {
                    assert(self.moves@.len() == self.moves.count);
                    self.moves.push(Move { source: 60, target: 62, promotion: None });
                }
                let ghost mid = self.moves@;
                assert(mid == start + castle_if(can_castle(*board, BK_CASTLING, BK_EMPTY_MASK, 60, 61, 62), 60, 62));
                if (board.castling_rights & BQ_CASTLING) != 0 && (board.all_occupancy
                    & BQ_EMPTY_MASK) == 0 && !board.is_square_attacked(60, enemy_color)
                    && !board.is_square_attacked(59, enemy_color) && !board.is_square_attacked(
                    58,
                    enemy_color,
                ) {
                    assert(self.moves@.len() == self.moves.count);
                    self.moves.push(Move { source: 60, target: 58, promotion: None });
                }
                assert(self.moves@ =~= start + castling_moves(*board));
            },
        }
    }

    /// Replaces the move list by the pseudo-legal moves (see `pseudo_legal_moves`).
    fn generate_pseudo_legal_moves(&mut self)
        requires
            pseudo_legal_moves(old(self).position()).len() <= 256,
        ensures
            final(self).moves.wf(),
            final(self).moves@ == pseudo_legal_moves(old(self).position()),
            final(self).position() == old(self).position(),
    {
        let ghost b = self.position();
        self.moves.clear();
        if self.board.active_color == Color::White {
            self.generate_white_pawn_moves();
        } else {
            self.generate_black_pawn_moves();
        }
        self.generate_knight_moves();
        self.generate_bishop_moves();
        self.generate_rook_moves();
        self.generate_queen_moves();
        self.generate_king_moves();
        self.generate_castling_moves();
        assert(self.moves@ =~= pseudo_legal_moves(b));
    }

    /// Replaces the move list by the legal moves (see `legal_moves`): each pseudo-legal move
    /// is tried on a copy of the board and kept when the mover's king is then not attacked.
    pub fn generate_moves(&mut self)
        requires
            movegen_ok(old(self).position()),
        ensures
            final(self).list_wf(),
            final(self).generated() == legal_moves(old(self).position()),
            final(self).position() == old(self).position(),
    {
        let ghost b = self.position();
        self.generate_pseudo_legal_moves();
        let pseudo_moves = MoveList { moves: self.moves.moves, count: self.moves.count };
        self.moves.clear();
        let (active_king, enemy_color) = if self.board.active_color == Color::White {
            (self.board.white_king, Color::Black)
        } else {
            (self.board.black_king, Color::White)
        };
        proof {
            axiom_u64_trailing_zeros(active_king);
            assert(active_king == pieces(b, b.active_color, PieceType::King));
        }
        let mut i: usize = 0;
        while i < pseudo_moves.count
            invariant
                i <= pseudo_moves.count,
                pseudo_moves.wf(),
                pseudo_moves@ == pseudo_legal_moves(b),
                movegen_ok(b),
                b == self.position(),
                *self.board == b,
                active_king == pieces(b, b.active_color, PieceType::King),
                enemy_color == opponent(b.active_color),
                self.moves.wf(),
                self.moves@ == safe_moves(b, pseudo_moves@.take(i as int)),
            decreases pseudo_moves.count - i,
        {
            let mv = pseudo_moves.get(i);
            let mut test_board = *self.board;
            test_board.make_move(mv);
            let king_index = active_king.trailing_zeros() as u8;
            let current_king_square = if mv.source == king_index {
                mv.target
            } else {
                king_index
            };
            proof {
                assert(pseudo_moves@.take(i + 1).drop_last() =~= pseudo_moves@.take(i as int));
                lemma_safe_moves_len(b, pseudo_moves@.take(i as int));
                assert(self.moves@.len() == self.moves.count);
            }
            if !test_board.is_square_attacked(current_king_square, enemy_color) {
                self.moves.push(mv);
            }
            i += 1;
        }
        proof {
            assert(pseudo_moves@.take(pseudo_moves.count as int) =~= pseudo_moves@);
        }
    }

    /// Hands out the generated move list.
    pub fn take_moves(self) -> (list: MoveList)
        ensures
            list@ == self.generated(),
            list.wf() == self.list_wf(),
    {
        self.moves
    }
}

proof fn lemma_add_contains(x: Seq<Move>, y: Seq<Move>, m: Move)
    requires
        (x + y).contains(m),
    ensures
        x.contains(m) || y.contains(m),
{
    let j = choose|j: int| 0 <= j < (x + y).len() && (x + y)[j] == m;
    if j < x.len() {
        assert(x[j] == m);
    } else {
        assert(y[j - x.len()] == m);
    }
}

proof fn lemma_flat_member(s: Seq<u8>, f: spec_fn(u8) -> Seq<Move>, m: Move)
    requires
        flat(s, f).contains(m),
    ensures
        exists|i: int| 0 <= i < s.len() && #[trigger] f(s[i]).contains(m),
    decreases s.len(),
{
    if s.len() > 0 {
        lemma_add_contains(flat(s.drop_last(), f), f(s.last()), m);
        if flat(s.drop_last(), f).contains(m) {
            lemma_flat_member(s.drop_last(), f, m);
            let i = choose|i: int| 0 <= i < s.drop_last().len() && #[trigger] f(s.drop_last()[i]).contains(m);
            assert(s[i] == s.drop_last()[i]);
        } else {
            assert(f(s[s.len() - 1]).contains(m));
        }
    }
}

/// A pawn move onto one of `targets` goes to a square of `targets` from `delta` squares
/// behind it, and promotes only when `promotes`.
proof fn lemma_pawn_member(targets: u64, up: bool, delta: int, promotes: bool, m: Move)
    requires
        pawn_moves_to(targets, up, delta, promotes).contains(m),
    ensures
        bit_set(targets, m.target as int),
        m.source == (if up {
            m.target - delta
        } else {
            m.target + delta
        }) as u8,
        m.promotion is Some ==> promotes,
        m.promotion != Some(PieceType::King),
{
    let sq = squares_spec(targets);
    let f = pawn_fn(up, delta, promotes);
    lemma_flat_member(sq, f, m);
    let i = choose|i: int| 0 <= i < sq.len() && #[trigger] f(sq[i]).contains(m);
    lemma_squares_where(|t: int| bit_set(targets, t), 64);
    let t = sq[i];
    assert(bit_set(targets, t as int));
    let ms = pawn_target_moves(t, up, delta, promotes);
    let j = choose|j: int| 0 <= j < ms.len() && ms[j] == m;
    assert(m.target == t);
}

/// A move of a piece of kind `k` in `sources` starts on a square of `sources` and goes,
/// without promoting, to a square the piece attacks outside `own`.
proof fn lemma_piece_member(b: Board, k: PieceType, sources: u64, own: u64, m: Move)
    requires
        piece_moves(b, k, sources, own).contains(m),
    ensures
        bit_set(sources, m.source as int),
        piece_attacks(b, k, m.source as int, m.target as int),
        !bit_set(own, m.target as int),
        m.promotion is None,
{
    let sq = squares_spec(sources);
    let f = piece_fn(b, k, own);
    lemma_flat_member(sq, f, m);
    let i = choose|i: int| 0 <= i < sq.len() && #[trigger] f(sq[i]).contains(m);
    lemma_squares_where(|t: int| bit_set(sources, t), 64);
    let s = sq[i];
    assert(bit_set(sources, s as int));
    let ts = piece_targets(b, k, s, own);
    lemma_squares_where(|t: int| piece_attacks(b, k, s as int, t) && !bit_set(own, t), 64);
    let ms = moves_from(s, ts);
    let j = choose|j: int| 0 <= j < ms.len() && ms[j] == m;
    assert(ms[j] == Move { source: s, target: ts[j], promotion: None });
    assert(piece_attacks(b, k, s as int, ts[j] as int) && !bit_set(own, ts[j] as int));
}

/// The squares a pawn of the side to move captures onto, as move generation computes them.
pub open spec fn pawn_capture_squares(b: Board) -> u64 {
    if b.active_color == Color::White {
        ((b.white_pawns & !A_FILE) << 7u64) | ((b.white_pawns & !H_FILE) << 9u64)
    } else {
        ((b.black_pawns & !H_FILE) >> 7u64) | ((b.black_pawns & !A_FILE) >> 9u64)
    }
}

/// The en-passant target and castling rights agree with the pieces wherever a move of the
/// side to move can use them: an en-passant target square that one of its pawns captures
/// onto holds none of its pieces and, when it holds no enemy piece either, has an enemy pawn
/// just behind it; and a castling right of the side to move whose king stands on its
/// starting square has its rook in its corner.
pub open spec fn extras_consistent(b: Board) -> bool {
    let a = b.active_color;
    &&& forall|sq: int|
        #[trigger] bit_set(b.en_passant_target & pawn_capture_squares(b), sq) ==> !bit_set(
            color_union(b, a),
            sq,
        ) && (!bit_set(color_union(b, opponent(a)), sq) ==> bit_set(
            pieces(b, opponent(a), PieceType::Pawn),
            if a == Color::White {
                sq - 8
            } else {
                sq + 8
            },
        ))
    &&& a == Color::White && bit_set(b.white_king, 4) ==> (b.castling_rights & WK_CASTLING != 0
        ==> bit_set(b.white_rooks, 7)) && (b.castling_rights & WQ_CASTLING != 0 ==> bit_set(
        b.white_rooks,
        0,
    ))
    &&& a == Color::Black && bit_set(b.black_king, 60) ==> (b.castling_rights & BK_CASTLING != 0
        ==> bit_set(b.black_rooks, 63)) && (b.castling_rights & BQ_CASTLING != 0 ==> bit_set(
        b.black_rooks,
        56,
    ))
}

proof fn lemma_occupancy_bits(b: Board, sq: int)
    requires
        b.wf(),
        single_occupancy(b),
        0 <= sq < 64,
    ensures
        bit_set(b.all_occupancy, sq) == !empty_square(b, sq),
        bit_set(b.white_occupancy, sq) == bit_set(color_union(b, Color::White), sq),
        bit_set(b.black_occupancy, sq) == bit_set(color_union(b, Color::Black), sq),
        bit_set(color_union(b, Color::White), sq) ==> !bit_set(color_union(b, Color::Black), sq),
        bit_set(color_union(b, Color::Black), sq) ==> !bit_set(color_union(b, Color::White), sq),
        empty_square(b, sq) ==> !bit_set(color_union(b, Color::White), sq) && !bit_set(
            color_union(b, Color::Black),
            sq,
        ),
{
    broadcast use group_bits;

    if !empty_square(b, sq) {
        let (c, k) = choose|c: Color, k: PieceType| bit_set(pieces(b, c, k), sq);
        assert(bit_set(pieces(b, c, k), sq));
    }
}

proof fn lemma_fits_piece(b: Board, k: PieceType, m: Move)
    requires
        b.wf(),
        single_occupancy(b),
        move_ok(b, m),
        k != PieceType::Pawn,
        kind_moves(b, k).contains(m),
    ensures
        move_fits(b, m),
{
    broadcast use group_bits;

    let a = b.active_color;
    lemma_piece_member(b, k, pieces(b, a, k), own_occupancy(b), m);
    lemma_occupancy_bits(b, m.target as int);
    assert(bit_set(pieces(b, a, k), m.source as int));
    assert(moving_kind(b, m) == k);
    if k == PieceType::King {
        assert(king_step(m.source as int, m.target as int));
        assert(move_distance(m) != 2);
    }
}

proof fn lemma_fits_white_pawn(b: Board, m: Move)
    requires
        b.wf(),
        single_occupancy(b),
        extras_consistent(b),
        b.active_color == Color::White,
        move_ok(b, m),
        white_pawn_moves(b).contains(m),
    ensures
        move_fits(b, m),
{
    broadcast use group_bits, group_mask_squares;

    let single = white_single_pushes(b);
    let p1 = pawn_moves_to(single, true, 8, true);
    let p2 = pawn_moves_to((single << 8u64) & !b.all_occupancy & RANK_4, true, 16, false);
    let p3 = pawn_moves_to(((b.white_pawns & !A_FILE) << 7u64) & b.black_occupancy, true, 7, true);
    let p4 = pawn_moves_to(((b.white_pawns & !H_FILE) << 9u64) & b.black_occupancy, true, 9, true);
    let p5 = pawn_moves_to(((b.white_pawns & !A_FILE) << 7u64) & b.en_passant_target, true, 7, false);
    let p6 = pawn_moves_to(((b.white_pawns & !H_FILE) << 9u64) & b.en_passant_target, true, 9, false);
    lemma_add_contains(p1 + p2 + p3 + p4 + p5, p6, m);
    if !p6.contains(m) {
        lemma_add_contains(p1 + p2 + p3 + p4, p5, m);
        if !p5.contains(m) {
            lemma_add_contains(p1 + p2 + p3, p4, m);
            if !p4.contains(m) {
                lemma_add_contains(p1 + p2, p3, m);
                if !p3.contains(m) {
                    lemma_add_contains(p1, p2, m);
                }
            }
        }
    }
    let t = m.target as int;
    lemma_occupancy_bits(b, t);
    if p1.contains(m) {
        lemma_pawn_member(single, true, 8, true, m);
        lemma_occupancy_bits(b, t);
        assert(bit_set(b.white_pawns, m.source as int));
    } else if p2.contains(m) {
        lemma_pawn_member((single << 8u64) & !b.all_occupancy & RANK_4, true, 16, false, m);
        assert(bit_set(b.white_pawns, m.source as int));
    } else if p3.contains(m) {
        lemma_pawn_member(((b.white_pawns & !A_FILE) << 7u64) & b.black_occupancy, true, 7, true, m);
        assert(bit_set(b.white_pawns, m.source as int));
        assert(bit_set(color_union(b, Color::Black), t));
    } else if p4.contains(m) {
        lemma_pawn_member(((b.white_pawns & !H_FILE) << 9u64) & b.black_occupancy, true, 9, true, m);
        assert(bit_set(b.white_pawns, m.source as int));
        assert(bit_set(color_union(b, Color::Black), t));
    } else if p5.contains(m) {
        lemma_pawn_member(((b.white_pawns & !A_FILE) << 7u64) & b.en_passant_target, true, 7, false, m);
        assert(bit_set(b.white_pawns, m.source as int));
        assert(bit_set(b.en_passant_target & pawn_capture_squares(b), t));
    } else {
        lemma_pawn_member(((b.white_pawns & !H_FILE) << 9u64) & b.en_passant_target, true, 9, false, m);
        assert(bit_set(b.white_pawns, m.source as int));
        assert(bit_set(b.en_passant_target & pawn_capture_squares(b), t));
    }
    assert(moving_kind(b, m) == PieceType::Pawn);
}

proof fn lemma_fits_black_pawn(b: Board, m: Move)
    requires
        b.wf(),
        single_occupancy(b),
        extras_consistent(b),
        b.active_color == Color::Black,
        move_ok(b, m),
        black_pawn_moves(b).contains(m),
    ensures
        move_fits(b, m),
{
    broadcast use group_bits, group_mask_squares;

    let single = black_single_pushes(b);
    let p1 = pawn_moves_to(single, false, 8, true);
    let p2 = pawn_moves_to((single >> 8u64) & !b.all_occupancy & RANK_5, false, 16, false);
    let p3 = pawn_moves_to(((b.black_pawns & !H_FILE) >> 7u64) & b.white_occupancy, false, 7, true);
    let p4 = pawn_moves_to(((b.black_pawns & !A_FILE) >> 9u64) & b.white_occupancy, false, 9, true);
    let p5 = pawn_moves_to(((b.black_pawns & !H_FILE) >> 7u64) & b.en_passant_target, false, 7, false);
    let p6 = pawn_moves_to(((b.black_pawns & !A_FILE) >> 9u64) & b.en_passant_target, false, 9, false);
    lemma_add_contains(p1 + p2 + p3 + p4 + p5, p6, m);
    if !p6.contains(m) {
        lemma_add_contains(p1 + p2 + p3 + p4, p5, m);
        if !p5.contains(m) {
            lemma_add_contains(p1 + p2 + p3, p4, m);
            if !p4.contains(m) {
                lemma_add_contains(p1 + p2, p3, m);
                if !p3.contains(m) {
                    lemma_add_contains(p1, p2, m);
                }
            }
        }
    }
    let t = m.target as int;
    lemma_occupancy_bits(b, t);
    if p1.contains(m) {
        lemma_pawn_member(single, false, 8, true, m);
        assert(bit_set(b.black_pawns, m.source as int));
    } else if p2.contains(m) {
        lemma_pawn_member((single >> 8u64) & !b.all_occupancy & RANK_5, false, 16, false, m);
        assert(bit_set(b.black_pawns, m.source as int));
    } else if p3.contains(m) {
        lemma_pawn_member(((b.black_pawns & !H_FILE) >> 7u64) & b.white_occupancy, false, 7, true, m);
        assert(bit_set(b.black_pawns, m.source as int));
        assert(bit_set(color_union(b, Color::White), t));
    } else if p4.contains(m) {
        lemma_pawn_member(((b.black_pawns & !A_FILE) >> 9u64) & b.white_occupancy, false, 9, true, m);
        assert(bit_set(b.black_pawns, m.source as int));
        assert(bit_set(color_union(b, Color::White), t));
    } else if p5.contains(m) {
        lemma_pawn_member(((b.black_pawns & !H_FILE) >> 7u64) & b.en_passant_target, false, 7, false, m);
        assert(bit_set(b.black_pawns, m.source as int));
        assert(bit_set(b.en_passant_target & pawn_capture_squares(b), t));
    } else {
        lemma_pawn_member(((b.black_pawns & !A_FILE) >> 9u64) & b.en_passant_target, false, 9, false, m);
        assert(bit_set(b.black_pawns, m.source as int));
        assert(bit_set(b.en_passant_target & pawn_capture_squares(b), t));
    }
    assert(moving_kind(b, m) == PieceType::Pawn);
}

proof fn lemma_fits_castle(b: Board, m: Move)
    requires
        b.wf(),
        single_occupancy(b),
        extras_consistent(b),
        move_ok(b, m),
        castling_moves(b).contains(m),
    ensures
        move_fits(b, m),
{
    broadcast use group_bits, group_mask_squares;

    let (x, y) = if b.active_color == Color::White {
        (
            castle_if(can_castle(b, WK_CASTLING, WK_EMPTY_MASK, 4, 5, 6), 4, 6),
            castle_if(can_castle(b, WQ_CASTLING, WQ_EMPTY_MASK, 4, 3, 2), 4, 2),
        )
    } else {
        (
            castle_if(can_castle(b, BK_CASTLING, BK_EMPTY_MASK, 60, 61, 62), 60, 62),
            castle_if(can_castle(b, BQ_CASTLING, BQ_EMPTY_MASK, 60, 59, 58), 60, 58),
        )
    };
    lemma_add_contains(x, y, m);
    let (via, mask) = if m.target == 6 {
        (5int, WK_EMPTY_MASK)
    } else if m.target == 2 {
        (3int, WQ_EMPTY_MASK)
    } else if m.target == 62 {
        (61int, BK_EMPTY_MASK)
    } else {
        (59int, BQ_EMPTY_MASK)
    };
    assert(m.promotion is None);
    assert(b.all_occupancy & mask == 0);
    assert(!bit_set(b.all_occupancy, m.target as int)) by {
        assert(bit_set(mask, m.target as int));
        assert(!bit_set(b.all_occupancy & mask, m.target as int));
    }
    assert(!bit_set(b.all_occupancy, via)) by {
        assert(bit_set(mask, via));
        assert(!bit_set(b.all_occupancy & mask, via));
    }
    lemma_occupancy_bits(b, m.target as int);
    lemma_occupancy_bits(b, via);
}

/// Every pseudo-legal move fits the board when its squares hold one piece each and its
/// en-passant target and castling rights agree with the pieces.
proof fn lemma_pseudo_move_fits(b: Board, m: Move)
    requires
        b.wf(),
        single_occupancy(b),
        extras_consistent(b),
        movegen_ok(b),
        pseudo_legal_moves(b).contains(m),
    ensures
        move_fits(b, m),
{
    let ps = pseudo_legal_moves(b);
    let j = choose|j: int| 0 <= j < ps.len() && ps[j] == m;
    assert(move_ok(b, ps[j]));
    let pawns = if b.active_color == Color::White {
        white_pawn_moves(b)
    } else {
        black_pawn_moves(b)
    };
    let q1 = pawns + kind_moves(b, PieceType::Knight);
    let q2 = q1 + kind_moves(b, PieceType::Bishop);
    let q3 = q2 + kind_moves(b, PieceType::Rook);
    let q4 = q3 + kind_moves(b, PieceType::Queen);
    let q5 = q4 + kind_moves(b, PieceType::King);
    assert(ps == q5 + castling_moves(b));
    lemma_add_contains(q5, castling_moves(b), m);
    if castling_moves(b).contains(m) {
        lemma_fits_castle(b, m);
    } else {
        lemma_add_contains(q4, kind_moves(b, PieceType::King), m);
        if kind_moves(b, PieceType::King).contains(m) {
            lemma_fits_piece(b, PieceType::King, m);
        } else {
            lemma_add_contains(q3, kind_moves(b, PieceType::Queen), m);
            if kind_moves(b, PieceType::Queen).contains(m) {
                lemma_fits_piece(b, PieceType::Queen, m);
            } else {
                lemma_add_contains(q2, kind_moves(b, PieceType::Rook), m);
                if kind_moves(b, PieceType::Rook).contains(m) {
                    lemma_fits_piece(b, PieceType::Rook, m);
                } else {
                    lemma_add_contains(q1, kind_moves(b, PieceType::Bishop), m);
                    if kind_moves(b, PieceType::Bishop).contains(m) {
                        lemma_fits_piece(b, PieceType::Bishop, m);
                    } else {
                        lemma_add_contains(pawns, kind_moves(b, PieceType::Knight), m);
                        if kind_moves(b, PieceType::Knight).contains(m) {
                            lemma_fits_piece(b, PieceType::Knight, m);
                        } else if b.active_color == Color::White {
                            lemma_fits_white_pawn(b, m);
                        } else {
                            lemma_fits_black_pawn(b, m);
                        }
                    }
                }
            }
        }
    }
}

/// Playing a legal move on a position whose squares hold one piece each, and whose
/// en-passant target and castling rights agree with the pieces, leaves every square with
/// at most one piece and the occupancies equal to the unions of the piece bitboards.
pub proof fn lemma_legal_move_single_occupancy(b: Board, m: Move)
    requires
        b.wf(),
        single_occupancy(b),
        extras_consistent(b),
        movegen_ok(b),
        legal_moves(b).contains(m),
    ensures
        single_occupancy(board_after(b, m)),
        board_after(b, m).wf(),
{
    lemma_legal_in_pseudo(b);
    lemma_pseudo_move_fits(b, m);
    lemma_make_move_single_occupancy(b, m);
}

/// A bitboard with set squares below `n` has one.
proof fn lemma_some_square(x: u64, n: int)
    requires
        count_below(x, n) > 0,
    ensures
        exists|t: int| 0 <= t < n && #[trigger] bit_set(x, t),
    decreases n,
{
    if n > 0 && !bit_set(x, n - 1) {
        lemma_some_square(x, n - 1);
    }
}

/// A bitboard whose only square is `s` has `s` as its lowest square.
proof fn lemma_only_square(x: u64, s: int)
    requires
        0 <= s < 64,
        forall|t: int| 0 <= t < 64 ==> #[trigger] bit_set(x, t) == (t == s),
    ensures
        u64_trailing_zeros(x) == s,
{
    broadcast use group_bits;

    axiom_u64_trailing_zeros(x);
    assert(bit_set(x, s));
    assert(x != 0);
    let z = u64_trailing_zeros(x) as int;
    assert(bit_set(x, z));
}

/// A bitboard with one square has no other square, and that square is its lowest.
proof fn lemma_single_square(x: u64, s: int)
    requires
        pop_count_spec(x) == 1,
        bit_set(x, s),
    ensures
        forall|t: int| #[trigger] bit_set(x, t) ==> t == s,
        u64_trailing_zeros(x) == s,
{
    assert forall|t: int| #[trigger] bit_set(x, t) implies t == s by {
        if t != s {
            let lo = if t < s {
                t
            } else {
                s
            };
            let hi = if t < s {
                s
            } else {
                t
            };
            lemma_count_below_mono(x, lo, hi);
            lemma_count_below_mono(x, hi, 64);
            lemma_count_below_mono(x, 0, lo);
        }
    }
    broadcast use group_bits;

    axiom_u64_trailing_zeros(x);
    assert(x != 0);
    let z = u64_trailing_zeros(x) as int;
    assert(bit_set(x, z));
}

proof fn lemma_safe_member(b: Board, ms: Seq<Move>, m: Move)
    requires
        safe_moves(b, ms).contains(m),
    ensures
        leaves_king_safe(b, m),
    decreases ms.len(),
{
    if ms.len() > 0 {
        let rest = safe_moves(b, ms.drop_last());
        let tail = if leaves_king_safe(b, ms.last()) {
            seq![ms.last()]
        } else {
            Seq::<Move>::empty()
        };
        lemma_add_contains(rest, tail, m);
        if rest.contains(m) {
            lemma_safe_member(b, ms.drop_last(), m);
        } else {
            assert(tail[0] == m);
        }
    }
}

/// After a legal move on a position with one king for the side to move, one piece per
/// square, and an en-passant target and castling rights that agree with the pieces, the
/// side that moved is not in check: no enemy piece attacks its king's square.
pub proof fn lemma_legal_move_no_check(b: Board, m: Move)
    requires
        b.wf(),
        single_occupancy(b),
        extras_consistent(b),
        movegen_ok(b),
        pop_count_spec(pieces(b, b.active_color, PieceType::King)) == 1,
        legal_moves(b).contains(m),
    ensures
        !square_attacked(
            board_after(b, m),
            u64_trailing_zeros(pieces(board_after(b, m), b.active_color, PieceType::King)) as int,
            opponent(b.active_color),
        ),
{
    broadcast use group_bits;

    let a = b.active_color;
    let after = board_after(b, m);
    let king = pieces(b, a, PieceType::King);
    lemma_legal_in_pseudo(b);
    lemma_pseudo_move_fits(b, m);
    lemma_safe_member(b, pseudo_legal_moves(b), m);
    let ps = pseudo_legal_moves(b);
    let j = choose|j: int| 0 <= j < ps.len() && ps[j] == m;
    assert(move_ok(b, ps[j]));
    lemma_some_square(king, 64);
    let ks = choose|t: int| 0 <= t < 64 && #[trigger] bit_set(king, t);
    lemma_single_square(king, ks);
    let mk = moving_kind(b, m);
    assert(bit_set(pieces(b, a, mk), m.source as int));
    assert(!bit_set(color_union(b, a), m.target as int));
    assert(!bit_set(king, m.target as int));
    assert(king_square(b) == ks);
    let target_square = if mk == PieceType::King {
        m.target as int
    } else {
        ks
    };
    assert forall|t: int| 0 <= t < 64 implies #[trigger] bit_set(
        pieces(after, a, PieceType::King),
        t,
    ) == (t == target_square) by {
        lemma_pieces_after(b, m, a, PieceType::King);
        lemma_term_bits(b, m, a, PieceType::King, t);
        lemma_rook_bits(b, m, a, PieceType::King, t);
    }
    lemma_only_square(pieces(after, a, PieceType::King), target_square);
    assert(king_square_after(b, m) == target_square);
}

proof fn lemma_add_distinct(x: Seq<Move>, y: Seq<Move>)
    requires
        x.no_duplicates(),
        y.no_duplicates(),
        forall|m: Move| #[trigger] x.contains(m) ==> !y.contains(m),
    ensures
        (x + y).no_duplicates(),
{
    let z = x + y;
    assert forall|i: int, j: int| 0 <= i < z.len() && 0 <= j < z.len() && i != j implies z[i]
        != z[j] by {
        if i < x.len() && j >= x.len() {
            assert(x.contains(z[i]));
            assert(y[j - x.len()] == z[j]);
        } else if j < x.len() && i >= x.len() {
            assert(x.contains(z[j]));
            assert(y[i - x.len()] == z[i]);
        } else if i >= x.len() {
            assert(y[i - x.len()] == z[i] && y[j - x.len()] == z[j]);
        }
    }
}

/// The moves of `flat(s, f)` are distinct when the keys `s` increase strictly, each `f(x)`
/// has distinct moves, and every move of `f(x)` has key `x`.
proof fn lemma_flat_distinct(s: Seq<u8>, f: spec_fn(u8) -> Seq<Move>, key: spec_fn(Move) -> u8)
    requires
        forall|j: int, k: int| 0 <= j < k < s.len() ==> s[j] < s[k],
        forall|x: u8| #[trigger] f(x).no_duplicates(),
        forall|x: u8, m: Move| #[trigger] f(x).contains(m) ==> key(m) == x,
    ensures
        flat(s, f).no_duplicates(),
        forall|m: Move| #[trigger] flat(s, f).contains(m) ==> s.contains(key(m)),
    decreases s.len(),
{
    if s.len() > 0 {
        let p = s.drop_last();
        lemma_flat_distinct(p, f, key);
        assert forall|m: Move| #[trigger] flat(p, f).contains(m) implies !f(s.last()).contains(m) by {
            let j = choose|j: int| 0 <= j < p.len() && p[j] == key(m);
            assert(s[j] < s[s.len() - 1]);
        }
        lemma_add_distinct(flat(p, f), f(s.last()));
        assert forall|m: Move| #[trigger] flat(s, f).contains(m) implies s.contains(key(m)) by {
            lemma_add_contains(flat(p, f), f(s.last()), m);
            if flat(p, f).contains(m) {
                let j = choose|j: int| 0 <= j < p.len() && p[j] == key(m);
                assert(s[j] == key(m));
            } else {
                assert(s[s.len() - 1] == key(m));
            }
        }
    }
}

/// The moves of the pieces of kind `k` in `sources` are distinct.
proof fn lemma_piece_moves_distinct(b: Board, k: PieceType, sources: u64, own: u64)
    ensures
        piece_moves(b, k, sources, own).no_duplicates(),
{
    let sq = squares_spec(sources);
    let f = piece_fn(b, k, own);
    lemma_squares_where(|t: int| bit_set(sources, t), 64);
    assert forall|x: u8| #[trigger] f(x).no_duplicates() by {
        let ts = piece_targets(b, k, x, own);
        lemma_squares_where(|t: int| piece_attacks(b, k, x as int, t) && !bit_set(own, t), 64);
        let ms = moves_from(x, ts);
        assert forall|i: int, j: int| 0 <= i < ms.len() && 0 <= j < ms.len() && i != j implies ms[i]
            != ms[j] by {
            if i < j {
                assert(ts[i] < ts[j]);
            } else {
                assert(ts[j] < ts[i]);
            }
        }
    }
    assert forall|x: u8, m: Move| #[trigger] f(x).contains(m) implies (|mv: Move| mv.source)(m)
        == x by {
        let ms = moves_from(x, piece_targets(b, k, x, own));
        let j = choose|j: int| 0 <= j < ms.len() && ms[j] == m;
    }
    lemma_flat_distinct(sq, f, |mv: Move| mv.source);
}

/// The pawn moves onto `targets` are distinct.
proof fn lemma_pawn_moves_distinct(targets: u64, up: bool, delta: int, promotes: bool)
    ensures
        pawn_moves_to(targets, up, delta, promotes).no_duplicates(),
{
    let sq = squares_spec(targets);
    let f = pawn_fn(up, delta, promotes);
    lemma_squares_where(|t: int| bit_set(targets, t), 64);
    assert forall|x: u8| #[trigger] f(x).no_duplicates() by {
        let ms = pawn_target_moves(x, up, delta, promotes);
        assert forall|i: int, j: int| 0 <= i < ms.len() && 0 <= j < ms.len() && i != j implies ms[i]
            != ms[j] by {
            assert(ms[i].promotion != ms[j].promotion);
        }
    }
    assert forall|x: u8, m: Move| #[trigger] f(x).contains(m) implies (|mv: Move| mv.target)(m)
        == x by {
        let ms = pawn_target_moves(x, up, delta, promotes);
        let j = choose|j: int| 0 <= j < ms.len() && ms[j] == m;
    }
    lemma_flat_distinct(sq, f, |mv: Move| mv.target);
}

/// No en-passant target square that a pawn of the side to move captures onto holds a piece.
pub open spec fn ep_squares_empty(b: Board) -> bool {
    forall|sq: int|
        #[trigger] bit_set(b.en_passant_target & pawn_capture_squares(b), sq) ==> empty_square(b, sq)
}

/// The moves of White's pawns are distinct when no en-passant target square that a pawn
/// captures onto holds a piece, and each starts on a white pawn.
proof fn lemma_white_pawn_moves_distinct(b: Board)
    requires
        b.wf(),
        single_occupancy(b),
        ep_squares_empty(b),
        b.active_color == Color::White,
    ensures
        white_pawn_moves(b).no_duplicates(),
        forall|m: Move| #[trigger] white_pawn_moves(b).contains(m) ==> bit_set(b.white_pawns, m.source as int),
{
    broadcast use group_bits, group_mask_squares;

    let single = white_single_pushes(b);
    let p1 = pawn_moves_to(single, true, 8, true);
    let p2 = pawn_moves_to((single << 8u64) & !b.all_occupancy & RANK_4, true, 16, false);
    let p3 = pawn_moves_to(((b.white_pawns & !A_FILE) << 7u64) & b.black_occupancy, true, 7, true);
    let p4 = pawn_moves_to(((b.white_pawns & !H_FILE) << 9u64) & b.black_occupancy, true, 9, true);
    let p5 = pawn_moves_to(((b.white_pawns & !A_FILE) << 7u64) & b.en_passant_target, true, 7, false);
    let p6 = pawn_moves_to(((b.white_pawns & !H_FILE) << 9u64) & b.en_passant_target, true, 9, false);
    lemma_pawn_moves_distinct(single, true, 8, true);
    lemma_pawn_moves_distinct((single << 8u64) & !b.all_occupancy & RANK_4, true, 16, false);
    lemma_pawn_moves_distinct(((b.white_pawns & !A_FILE) << 7u64) & b.black_occupancy, true, 7, true);
    lemma_pawn_moves_distinct(((b.white_pawns & !H_FILE) << 9u64) & b.black_occupancy, true, 9, true);
    lemma_pawn_moves_distinct(((b.white_pawns & !A_FILE) << 7u64) & b.en_passant_target, true, 7, false);
    lemma_pawn_moves_distinct(((b.white_pawns & !H_FILE) << 9u64) & b.en_passant_target, true, 9, false);
    assert(white_pawn_moves(b) == p1 + p2 + p3 + p4 + p5 + p6);
    assert forall|m: Move| #[trigger] (p1).contains(m) implies !p2.contains(m) by {
        if p2.contains(m) {
            lemma_pawn_member((single << 8u64) & !b.all_occupancy & RANK_4, true, 16, false, m);
            lemma_pawn_member(single, true, 8, true, m);
        }
    }
    lemma_add_distinct(p1, p2);
    assert forall|m: Move| #[trigger] (p1 + p2).contains(m) implies !p3.contains(m) by {
        if p3.contains(m) {
            lemma_pawn_member(((b.white_pawns & !A_FILE) << 7u64) & b.black_occupancy, true, 7, true, m);
            lemma_add_contains(p1, p2, m);
            if p2.contains(m) {
                lemma_pawn_member((single << 8u64) & !b.all_occupancy & RANK_4, true, 16, false, m);
                lemma_occupancy_bits(b, m.target as int);
            } else {
                lemma_pawn_member(single, true, 8, true, m);
                lemma_occupancy_bits(b, m.target as int);
            }
        }
    }
    lemma_add_distinct(p1 + p2, p3);
    assert forall|m: Move| #[trigger] (p1 + p2 + p3).contains(m) implies !p4.contains(m) by {
        if p4.contains(m) {
            lemma_pawn_member(((b.white_pawns & !H_FILE) << 9u64) & b.black_occupancy, true, 9, true, m);
            lemma_add_contains(p1 + p2, p3, m);
            if p3.contains(m) {
                lemma_pawn_member(((b.white_pawns & !A_FILE) << 7u64) & b.black_occupancy, true, 7, true, m);
                lemma_occupancy_bits(b, m.target as int);
            } else {
                lemma_add_contains(p1, p2, m);
                if p2.contains(m) {
                    lemma_pawn_member((single << 8u64) & !b.all_occupancy & RANK_4, true, 16, false, m);
                    lemma_occupancy_bits(b, m.target as int);
                } else {
                    lemma_pawn_member(single, true, 8, true, m);
                    lemma_occupancy_bits(b, m.target as int);
                }
                lemma_occupancy_bits(b, m.target as int);
            }
        }
    }
    lemma_add_distinct(p1 + p2 + p3, p4);
    assert forall|m: Move| #[trigger] (p1 + p2 + p3 + p4).contains(m) implies !p5.contains(m) by {
        if p5.contains(m) {
            lemma_pawn_member(((b.white_pawns & !A_FILE) << 7u64) & b.en_passant_target, true, 7, false, m);
            assert(bit_set(b.en_passant_target & pawn_capture_squares(b), m.target as int));
            assert(empty_square(b, m.target as int));
            lemma_add_contains(p1 + p2 + p3, p4, m);
            if p4.contains(m) {
                lemma_pawn_member(((b.white_pawns & !H_FILE) << 9u64) & b.black_occupancy, true, 9, true, m);
                lemma_occupancy_bits(b, m.target as int);
            } else {
                lemma_add_contains(p1 + p2, p3, m);
                if p3.contains(m) {
                    lemma_pawn_member(((b.white_pawns & !A_FILE) << 7u64) & b.black_occupancy, true, 7, true, m);
                    lemma_occupancy_bits(b, m.target as int);
                } else {
                    lemma_add_contains(p1, p2, m);
                    if p2.contains(m) {
                        lemma_pawn_member((single << 8u64) & !b.all_occupancy & RANK_4, true, 16, false, m);
                        lemma_occupancy_bits(b, m.target as int);
                    } else {
                        lemma_pawn_member(single, true, 8, true, m);
                        lemma_occupancy_bits(b, m.target as int);
                    }
                    lemma_occupancy_bits(b, m.target as int);
                }
                lemma_occupancy_bits(b, m.target as int);
            }
        }
    }
    lemma_add_distinct(p1 + p2 + p3 + p4, p5);
    assert forall|m: Move| #[trigger] (p1 + p2 + p3 + p4 + p5).contains(m) implies !p6.contains(m) by {
        if p6.contains(m) {
            lemma_pawn_member(((b.white_pawns & !H_FILE) << 9u64) & b.en_passant_target, true, 9, false, m);
            assert(bit_set(b.en_passant_target & pawn_capture_squares(b), m.target as int));
            assert(empty_square(b, m.target as int));
            lemma_add_contains(p1 + p2 + p3 + p4, p5, m);
            if p5.contains(m) {
                lemma_pawn_member(((b.white_pawns & !A_FILE) << 7u64) & b.en_passant_target, true, 7, false, m);
                lemma_occupancy_bits(b, m.target as int);
            } else {
                lemma_add_contains(p1 + p2 + p3, p4, m);
                if p4.contains(m) {
                    lemma_pawn_member(((b.white_pawns & !H_FILE) << 9u64) & b.black_occupancy, true, 9, true, m);
                    lemma_occupancy_bits(b, m.target as int);
                } else {
                    lemma_add_contains(p1 + p2, p3, m);
                    if p3.contains(m) {
                        lemma_pawn_member(((b.white_pawns & !A_FILE) << 7u64) & b.black_occupancy, true, 7, true, m);
                        lemma_occupancy_bits(b, m.target as int);
                    } else {
                        lemma_add_contains(p1, p2, m);
                        if p2.contains(m) {
                            lemma_pawn_member((single << 8u64) & !b.all_occupancy & RANK_4, true, 16, false, m);
                            lemma_occupancy_bits(b, m.target as int);
                        } else {
                            lemma_pawn_member(single, true, 8, true, m);
                            lemma_occupancy_bits(b, m.target as int);
                        }
                        lemma_occupancy_bits(b, m.target as int);
                    }
                    lemma_occupancy_bits(b, m.target as int);
                }
                lemma_occupancy_bits(b, m.target as int);
            }
        }
    }
    lemma_add_distinct(p1 + p2 + p3 + p4 + p5, p6);
    assert forall|m: Move| #[trigger] white_pawn_moves(b).contains(m) implies bit_set(b.white_pawns, m.source as int) by {
        lemma_add_contains(p1 + p2 + p3 + p4 + p5, p6, m);
        if p6.contains(m) {
            lemma_pawn_member(((b.white_pawns & !H_FILE) << 9u64) & b.en_passant_target, true, 9, false, m);
            assert(bit_set(b.en_passant_target & pawn_capture_squares(b), m.target as int));
            assert(empty_square(b, m.target as int));
            lemma_occupancy_bits(b, m.target as int);
        } else {
            lemma_add_contains(p1 + p2 + p3 + p4, p5, m);
            if p5.contains(m) {
                lemma_pawn_member(((b.white_pawns & !A_FILE) << 7u64) & b.en_passant_target, true, 7, false, m);
                lemma_occupancy_bits(b, m.target as int);
            } else {
                lemma_add_contains(p1 + p2 + p3, p4, m);
                if p4.contains(m) {
                    lemma_pawn_member(((b.white_pawns & !H_FILE) << 9u64) & b.black_occupancy, true, 9, true, m);
                    lemma_occupancy_bits(b, m.target as int);
                } else {
                    lemma_add_contains(p1 + p2, p3, m);
                    if p3.contains(m) {
                        lemma_pawn_member(((b.white_pawns & !A_FILE) << 7u64) & b.black_occupancy, true, 7, true, m);
                        lemma_occupancy_bits(b, m.target as int);
                    } else {
                        lemma_add_contains(p1, p2, m);
                        if p2.contains(m) {
                            lemma_pawn_member((single << 8u64) & !b.all_occupancy & RANK_4, true, 16, false, m);
                            lemma_occupancy_bits(b, m.target as int);
                        } else {
                            lemma_pawn_member(single, true, 8, true, m);
                            lemma_occupancy_bits(b, m.target as int);
                        }
                        lemma_occupancy_bits(b, m.target as int);
                    }
                    lemma_occupancy_bits(b, m.target as int);
                }
                lemma_occupancy_bits(b, m.target as int);
            }
            lemma_occupancy_bits(b, m.target as int);
        }
    }
}


/// The moves of Black's pawns are distinct when no en-passant target square that a pawn
/// captures onto holds a piece, and each starts on a black pawn.
proof fn lemma_black_pawn_moves_distinct(b: Board)
    requires
        b.wf(),
        single_occupancy(b),
        ep_squares_empty(b),
        b.active_color == Color::Black,
    ensures
        black_pawn_moves(b).no_duplicates(),
        forall|m: Move| #[trigger] black_pawn_moves(b).contains(m) ==> bit_set(b.black_pawns, m.source as int),
{
    broadcast use group_bits, group_mask_squares;

    let single = black_single_pushes(b);
    let p1 = pawn_moves_to(single, false, 8, true);
    let p2 = pawn_moves_to((single >> 8u64) & !b.all_occupancy & RANK_5, false, 16, false);
    let p3 = pawn_moves_to(((b.black_pawns & !H_FILE) >> 7u64) & b.white_occupancy, false, 7, true);
    let p4 = pawn_moves_to(((b.black_pawns & !A_FILE) >> 9u64) & b.white_occupancy, false, 9, true);
    let p5 = pawn_moves_to(((b.black_pawns & !H_FILE) >> 7u64) & b.en_passant_target, false, 7, false);
    let p6 = pawn_moves_to(((b.black_pawns & !A_FILE) >> 9u64) & b.en_passant_target, false, 9, false);
    lemma_pawn_moves_distinct(single, false, 8, true);
    lemma_pawn_moves_distinct((single >> 8u64) & !b.all_occupancy & RANK_5, false, 16, false);
    lemma_pawn_moves_distinct(((b.black_pawns & !H_FILE) >> 7u64) & b.white_occupancy, false, 7, true);
    lemma_pawn_moves_distinct(((b.black_pawns & !A_FILE) >> 9u64) & b.white_occupancy, false, 9, true);
    lemma_pawn_moves_distinct(((b.black_pawns & !H_FILE) >> 7u64) & b.en_passant_target, false, 7, false);
    lemma_pawn_moves_distinct(((b.black_pawns & !A_FILE) >> 9u64) & b.en_passant_target, false, 9, false);
    assert(black_pawn_moves(b) == p1 + p2 + p3 + p4 + p5 + p6);
    assert forall|m: Move| #[trigger] (p1).contains(m) implies !p2.contains(m) by {
        if p2.contains(m) {
            lemma_pawn_member((single >> 8u64) & !b.all_occupancy & RANK_5, false, 16, false, m);
            lemma_pawn_member(single, false, 8, true, m);
        }
    }
    lemma_add_distinct(p1, p2);
    assert forall|m: Move| #[trigger] (p1 + p2).contains(m) implies !p3.contains(m) by {
        if p3.contains(m) {
            lemma_pawn_member(((b.black_pawns & !H_FILE) >> 7u64) & b.white_occupancy, false, 7, true, m);
            lemma_add_contains(p1, p2, m);
            if p2.contains(m) {
                lemma_pawn_member((single >> 8u64) & !b.all_occupancy & RANK_5, false, 16, false, m);
                lemma_occupancy_bits(b, m.target as int);
            } else {
                lemma_pawn_member(single, false, 8, true, m);
                lemma_occupancy_bits(b, m.target as int);
            }
        }
    }
    lemma_add_distinct(p1 + p2, p3);
    assert forall|m: Move| #[trigger] (p1 + p2 + p3).contains(m) implies !p4.contains(m) by {
        if p4.contains(m) {
            lemma_pawn_member(((b.black_pawns & !A_FILE) >> 9u64) & b.white_occupancy, false, 9, true, m);
            lemma_add_contains(p1 + p2, p3, m);
            if p3.contains(m) {
                lemma_pawn_member(((b.black_pawns & !H_FILE) >> 7u64) & b.white_occupancy, false, 7, true, m);
                lemma_occupancy_bits(b, m.target as int);
            } else {
                lemma_add_contains(p1, p2, m);
                if p2.contains(m) {
                    lemma_pawn_member((single >> 8u64) & !b.all_occupancy & RANK_5, false, 16, false, m);
                    lemma_occupancy_bits(b, m.target as int);
                } else {
                    lemma_pawn_member(single, false, 8, true, m);
                    lemma_occupancy_bits(b, m.target as int);
                }
                lemma_occupancy_bits(b, m.target as int);
            }
        }
    }
    lemma_add_distinct(p1 + p2 + p3, p4);
    assert forall|m: Move| #[trigger] (p1 + p2 + p3 + p4).contains(m) implies !p5.contains(m) by {
        if p5.contains(m) {
            lemma_pawn_member(((b.black_pawns & !H_FILE) >> 7u64) & b.en_passant_target, false, 7, false, m);
            assert(bit_set(b.en_passant_target & pawn_capture_squares(b), m.target as int));
            assert(empty_square(b, m.target as int));
            lemma_add_contains(p1 + p2 + p3, p4, m);
            if p4.contains(m) {
                lemma_pawn_member(((b.black_pawns & !A_FILE) >> 9u64) & b.white_occupancy, false, 9, true, m);
                lemma_occupancy_bits(b, m.target as int);
            } else {
                lemma_add_contains(p1 + p2, p3, m);
                if p3.contains(m) {
                    lemma_pawn_member(((b.black_pawns & !H_FILE) >> 7u64) & b.white_occupancy, false, 7, true, m);
                    lemma_occupancy_bits(b, m.target as int);
                } else {
                    lemma_add_contains(p1, p2, m);
                    if p2.contains(m) {
                        lemma_pawn_member((single >> 8u64) & !b.all_occupancy & RANK_5, false, 16, false, m);
                        lemma_occupancy_bits(b, m.target as int);
                    } else {
                        lemma_pawn_member(single, false, 8, true, m);
                        lemma_occupancy_bits(b, m.target as int);
                    }
                    lemma_occupancy_bits(b, m.target as int);
                }
                lemma_occupancy_bits(b, m.target as int);
            }
        }
    }
    lemma_add_distinct(p1 + p2 + p3 + p4, p5);
    assert forall|m: Move| #[trigger] (p1 + p2 + p3 + p4 + p5).contains(m) implies !p6.contains(m) by {
        if p6.contains(m) {
            lemma_pawn_member(((b.black_pawns & !A_FILE) >> 9u64) & b.en_passant_target, false, 9, false, m);
            assert(bit_set(b.en_passant_target & pawn_capture_squares(b), m.target as int));
            assert(empty_square(b, m.target as int));
            lemma_add_contains(p1 + p2 + p3 + p4, p5, m);
            if p5.contains(m) {
                lemma_pawn_member(((b.black_pawns & !H_FILE) >> 7u64) & b.en_passant_target, false, 7, false, m);
                lemma_occupancy_bits(b, m.target as int);
            } else {
                lemma_add_contains(p1 + p2 + p3, p4, m);
                if p4.contains(m) {
                    lemma_pawn_member(((b.black_pawns & !A_FILE) >> 9u64) & b.white_occupancy, false, 9, true, m);
                    lemma_occupancy_bits(b, m.target as int);
                } else {
                    lemma_add_contains(p1 + p2, p3, m);
                    if p3.contains(m) {
                        lemma_pawn_member(((b.black_pawns & !H_FILE) >> 7u64) & b.white_occupancy, false, 7, true, m);
                        lemma_occupancy_bits(b, m.target as int);
                    } else {
                        lemma_add_contains(p1, p2, m);
                        if p2.contains(m) {
                            lemma_pawn_member((single >> 8u64) & !b.all_occupancy & RANK_5, false, 16, false, m);
                            lemma_occupancy_bits(b, m.target as int);
                        } else {
                            lemma_pawn_member(single, false, 8, true, m);
                            lemma_occupancy_bits(b, m.target as int);
                        }
                        lemma_occupancy_bits(b, m.target as int);
                    }
                    lemma_occupancy_bits(b, m.target as int);
                }
                lemma_occupancy_bits(b, m.target as int);
            }
        }
    }
    lemma_add_distinct(p1 + p2 + p3 + p4 + p5, p6);
    assert forall|m: Move| #[trigger] black_pawn_moves(b).contains(m) implies bit_set(b.black_pawns, m.source as int) by {
        lemma_add_contains(p1 + p2 + p3 + p4 + p5, p6, m);
        if p6.contains(m) {
            lemma_pawn_member(((b.black_pawns & !A_FILE) >> 9u64) & b.en_passant_target, false, 9, false, m);
            assert(bit_set(b.en_passant_target & pawn_capture_squares(b), m.target as int));
            assert(empty_square(b, m.target as int));
            lemma_occupancy_bits(b, m.target as int);
        } else {
            lemma_add_contains(p1 + p2 + p3 + p4, p5, m);
            if p5.contains(m) {
                lemma_pawn_member(((b.black_pawns & !H_FILE) >> 7u64) & b.en_passant_target, false, 7, false, m);
                lemma_occupancy_bits(b, m.target as int);
            } else {
                lemma_add_contains(p1 + p2 + p3, p4, m);
                if p4.contains(m) {
                    lemma_pawn_member(((b.black_pawns & !A_FILE) >> 9u64) & b.white_occupancy, false, 9, true, m);
                    lemma_occupancy_bits(b, m.target as int);
                } else {
                    lemma_add_contains(p1 + p2, p3, m);
                    if p3.contains(m) {
                        lemma_pawn_member(((b.black_pawns & !H_FILE) >> 7u64) & b.white_occupancy, false, 7, true, m);
                        lemma_occupancy_bits(b, m.target as int);
                    } else {
                        lemma_add_contains(p1, p2, m);
                        if p2.contains(m) {
                            lemma_pawn_member((single >> 8u64) & !b.all_occupancy & RANK_5, false, 16, false, m);
                            lemma_occupancy_bits(b, m.target as int);
                        } else {
                            lemma_pawn_member(single, false, 8, true, m);
                            lemma_occupancy_bits(b, m.target as int);
                        }
                        lemma_occupancy_bits(b, m.target as int);
                    }
                    lemma_occupancy_bits(b, m.target as int);
                }
                lemma_occupancy_bits(b, m.target as int);
            }
            lemma_occupancy_bits(b, m.target as int);
        }
    }
}

/// Each castling right of the side to move has its king on its starting square.
pub open spec fn castling_kings_home(b: Board) -> bool {
    &&& b.active_color == Color::White && (b.castling_rights & WK_CASTLING != 0
        || b.castling_rights & WQ_CASTLING != 0) ==> bit_set(b.white_king, 4)
    &&& b.active_color == Color::Black && (b.castling_rights & BK_CASTLING != 0
        || b.castling_rights & BQ_CASTLING != 0) ==> bit_set(b.black_king, 60)
}

/// A move the side to move generates starts on a square holding one of its pieces of the
/// generating kind.
proof fn lemma_category_source(b: Board, k: PieceType, m: Move)
    requires
        k != PieceType::Pawn,
        kind_moves(b, k).contains(m),
    ensures
        bit_set(pieces(b, b.active_color, k), m.source as int),
        piece_attacks(b, k, m.source as int, m.target as int),
{
    lemma_piece_member(b, k, pieces(b, b.active_color, k), own_occupancy(b), m);
}

proof fn lemma_safe_distinct(b: Board, ms: Seq<Move>)
    requires
        ms.no_duplicates(),
    ensures
        safe_moves(b, ms).no_duplicates(),
        forall|m: Move| #[trigger] safe_moves(b, ms).contains(m) ==> ms.contains(m),
    decreases ms.len(),
{
    if ms.len() > 0 {
        let p = ms.drop_last();
        assert(p.no_duplicates());
        lemma_safe_distinct(b, p);
        let tail = if leaves_king_safe(b, ms.last()) {
            seq![ms.last()]
        } else {
            Seq::<Move>::empty()
        };
        assert forall|m: Move| #[trigger] safe_moves(b, p).contains(m) implies !tail.contains(m) by {
            if tail.contains(m) {
                assert(tail[0] == m);
                let j = choose|j: int| 0 <= j < p.len() && p[j] == m;
                assert(ms[j] == ms[ms.len() - 1]);
            }
        }
        lemma_add_distinct(safe_moves(b, p), tail);
        assert forall|m: Move| #[trigger] safe_moves(b, ms).contains(m) implies ms.contains(m) by {
            lemma_add_contains(safe_moves(b, p), tail, m);
            if safe_moves(b, p).contains(m) {
                let j = choose|j: int| 0 <= j < p.len() && p[j] == m;
                assert(ms[j] == m);
            } else {
                assert(tail[0] == m);
                assert(ms[ms.len() - 1] == m);
            }
        }
    }
}

/// On a position with one piece per square, no piece on an en-passant target square that a
/// pawn of the side to move captures onto, and the king of the side to move on its starting
/// square for each of its castling rights, the pseudo-legal moves are distinct, and so are
/// the legal moves.
pub proof fn lemma_generated_moves_distinct(b: Board)
    requires
        b.wf(),
        single_occupancy(b),
        ep_squares_empty(b),
        castling_kings_home(b),
    ensures
        pseudo_legal_moves(b).no_duplicates(),
        legal_moves(b).no_duplicates(),
{
    broadcast use group_bits;

    let a = b.active_color;
    let pawns = if a == Color::White {
        white_pawn_moves(b)
    } else {
        black_pawn_moves(b)
    };
    if a == Color::White {
        lemma_white_pawn_moves_distinct(b);
    } else {
        lemma_black_pawn_moves_distinct(b);
    }
    assert(forall|m: Move| #[trigger] pawns.contains(m) ==> bit_set(pieces(b, a, PieceType::Pawn), m.source as int));
    lemma_piece_moves_distinct(b, PieceType::Knight, pieces(b, a, PieceType::Knight), own_occupancy(b));
    let qKnight = pawns + kind_moves(b, PieceType::Knight);
    assert forall|m: Move| #[trigger] pawns.contains(m) implies !kind_moves(b, PieceType::Knight).contains(m) by {
        if kind_moves(b, PieceType::Knight).contains(m) {
            lemma_category_source(b, PieceType::Knight, m);
            assert(bit_set(pieces(b, a, PieceType::Pawn), m.source as int));
        }
    }
    lemma_add_distinct(pawns, kind_moves(b, PieceType::Knight));
    lemma_piece_moves_distinct(b, PieceType::Bishop, pieces(b, a, PieceType::Bishop), own_occupancy(b));
    let qBishop = qKnight + kind_moves(b, PieceType::Bishop);
    assert forall|m: Move| #[trigger] qKnight.contains(m) implies !kind_moves(b, PieceType::Bishop).contains(m) by {
        if kind_moves(b, PieceType::Bishop).contains(m) {
            lemma_category_source(b, PieceType::Bishop, m);
            lemma_add_contains(pawns, kind_moves(b, PieceType::Knight), m);
            if kind_moves(b, PieceType::Knight).contains(m) {
                lemma_category_source(b, PieceType::Knight, m);
            } else {
                assert(bit_set(pieces(b, a, PieceType::Pawn), m.source as int));
            }
        }
    }
    lemma_add_distinct(qKnight, kind_moves(b, PieceType::Bishop));
    lemma_piece_moves_distinct(b, PieceType::Rook, pieces(b, a, PieceType::Rook), own_occupancy(b));
    let qRook = qBishop + kind_moves(b, PieceType::Rook);
    assert forall|m: Move| #[trigger] qBishop.contains(m) implies !kind_moves(b, PieceType::Rook).contains(m) by {
        if kind_moves(b, PieceType::Rook).contains(m) {
            lemma_category_source(b, PieceType::Rook, m);
            lemma_add_contains(qKnight, kind_moves(b, PieceType::Bishop), m);
            if kind_moves(b, PieceType::Bishop).contains(m) {
                lemma_category_source(b, PieceType::Bishop, m);
            } else {
                lemma_add_contains(pawns, kind_moves(b, PieceType::Knight), m);
                if kind_moves(b, PieceType::Knight).contains(m) {
                    lemma_category_source(b, PieceType::Knight, m);
                } else {
                    assert(bit_set(pieces(b, a, PieceType::Pawn), m.source as int));
                }
            }
        }
    }
    lemma_add_distinct(qBishop, kind_moves(b, PieceType::Rook));
    lemma_piece_moves_distinct(b, PieceType::Queen, pieces(b, a, PieceType::Queen), own_occupancy(b));
    let qQueen = qRook + kind_moves(b, PieceType::Queen);
    assert forall|m: Move| #[trigger] qRook.contains(m) implies !kind_moves(b, PieceType::Queen).contains(m) by {
        if kind_moves(b, PieceType::Queen).contains(m) {
            lemma_category_source(b, PieceType::Queen, m);
            lemma_add_contains(qBishop, kind_moves(b, PieceType::Rook), m);
            if kind_moves(b, PieceType::Rook).contains(m) {
                lemma_category_source(b, PieceType::Rook, m);
            } else {
                lemma_add_contains(qKnight, kind_moves(b, PieceType::Bishop), m);
                if kind_moves(b, PieceType::Bishop).contains(m) {
                    lemma_category_source(b, PieceType::Bishop, m);
                } else {
                    lemma_add_contains(pawns, kind_moves(b, PieceType::Knight), m);
                    if kind_moves(b, PieceType::Knight).contains(m) {
                        lemma_category_source(b, PieceType::Knight, m);
                    } else {
                        assert(bit_set(pieces(b, a, PieceType::Pawn), m.source as int));
                    }
                }
            }
        }
    }
    lemma_add_distinct(qRook, kind_moves(b, PieceType::Queen));
    lemma_piece_moves_distinct(b, PieceType::King, pieces(b, a, PieceType::King), own_occupancy(b));
    let qKing = qQueen + kind_moves(b, PieceType::King);
    assert forall|m: Move| #[trigger] qQueen.contains(m) implies !kind_moves(b, PieceType::King).contains(m) by {
        if kind_moves(b, PieceType::King).contains(m) {
            lemma_category_source(b, PieceType::King, m);
            lemma_add_contains(qRook, kind_moves(b, PieceType::Queen), m);
            if kind_moves(b, PieceType::Queen).contains(m) {
                lemma_category_source(b, PieceType::Queen, m);
            } else {
                lemma_add_contains(qBishop, kind_moves(b, PieceType::Rook), m);
                if kind_moves(b, PieceType::Rook).contains(m) {
                    lemma_category_source(b, PieceType::Rook, m);
                } else {
                    lemma_add_contains(qKnight, kind_moves(b, PieceType::Bishop), m);
                    if kind_moves(b, PieceType::Bishop).contains(m) {
                        lemma_category_source(b, PieceType::Bishop, m);
                    } else {
                        lemma_add_contains(pawns, kind_moves(b, PieceType::Knight), m);
                        if kind_moves(b, PieceType::Knight).contains(m) {
                            lemma_category_source(b, PieceType::Knight, m);
                        } else {
                            assert(bit_set(pieces(b, a, PieceType::Pawn), m.source as int));
                        }
                    }
                }
            }
        }
    }
    lemma_add_distinct(qQueen, kind_moves(b, PieceType::King));
    let cast = castling_moves(b);
    assert(cast.no_duplicates());
    assert forall|m: Move| #[trigger] qKing.contains(m) implies !cast.contains(m) by {
        if cast.contains(m) {
            let (x, y) = if a == Color::White {
                (
                    castle_if(can_castle(b, WK_CASTLING, WK_EMPTY_MASK, 4, 5, 6), 4, 6),
                    castle_if(can_castle(b, WQ_CASTLING, WQ_EMPTY_MASK, 4, 3, 2), 4, 2),
                )
            } else {
                (
                    castle_if(can_castle(b, BK_CASTLING, BK_EMPTY_MASK, 60, 61, 62), 60, 62),
                    castle_if(can_castle(b, BQ_CASTLING, BQ_EMPTY_MASK, 60, 59, 58), 60, 58),
                )
            };
            lemma_add_contains(x, y, m);
            assert(bit_set(pieces(b, a, PieceType::King), m.source as int));
            assert(!king_step(m.source as int, m.target as int));
            lemma_add_contains(qQueen, kind_moves(b, PieceType::King), m);
            if kind_moves(b, PieceType::King).contains(m) {
                lemma_category_source(b, PieceType::King, m);
            } else {
                lemma_add_contains(qRook, kind_moves(b, PieceType::Queen), m);
                if kind_moves(b, PieceType::Queen).contains(m) {
                    lemma_category_source(b, PieceType::Queen, m);
                } else {
                    lemma_add_contains(qBishop, kind_moves(b, PieceType::Rook), m);
                    if kind_moves(b, PieceType::Rook).contains(m) {
                        lemma_category_source(b, PieceType::Rook, m);
                    } else {
                        lemma_add_contains(qKnight, kind_moves(b, PieceType::Bishop), m);
                        if kind_moves(b, PieceType::Bishop).contains(m) {
                            lemma_category_source(b, PieceType::Bishop, m);
                        } else {
                            lemma_add_contains(pawns, kind_moves(b, PieceType::Knight), m);
                            if kind_moves(b, PieceType::Knight).contains(m) {
                                lemma_category_source(b, PieceType::Knight, m);
                            } else {
                                assert(bit_set(pieces(b, a, PieceType::Pawn), m.source as int));
                            }
                        }
                    }
                }
            }
        }
    }
    lemma_add_distinct(qKing, cast);
    assert(pseudo_legal_moves(b) == qKing + cast);
    lemma_safe_distinct(b, pseudo_legal_moves(b));
}

/// A move of White's pawns starts on one of its pawns.
proof fn lemma_white_pawn_source(b: Board, m: Move)
    requires
        white_pawn_moves(b).contains(m),
    ensures
        bit_set(b.white_pawns, m.source as int),
{
    broadcast use group_bits, group_mask_squares;

    let single = white_single_pushes(b);
    let p1 = pawn_moves_to(single, true, 8, true);
    let p2 = pawn_moves_to((single << 8u64) & !b.all_occupancy & RANK_4, true, 16, false);
    let p3 = pawn_moves_to(((b.white_pawns & !A_FILE) << 7u64) & b.black_occupancy, true, 7, true);
    let p4 = pawn_moves_to(((b.white_pawns & !H_FILE) << 9u64) & b.black_occupancy, true, 9, true);
    let p5 = pawn_moves_to(((b.white_pawns & !A_FILE) << 7u64) & b.en_passant_target, true, 7, false);
    let p6 = pawn_moves_to(((b.white_pawns & !H_FILE) << 9u64) & b.en_passant_target, true, 9, false);
    assert(white_pawn_moves(b) == p1 + p2 + p3 + p4 + p5 + p6);
    lemma_add_contains(p1 + p2 + p3 + p4 + p5, p6, m);
    if p6.contains(m) {
        lemma_pawn_member(((b.white_pawns & !H_FILE) << 9u64) & b.en_passant_target, true, 9, false, m);
    } else {
        lemma_add_contains(p1 + p2 + p3 + p4, p5, m);
        if p5.contains(m) {
            lemma_pawn_member(((b.white_pawns & !A_FILE) << 7u64) & b.en_passant_target, true, 7, false, m);
        } else {
            lemma_add_contains(p1 + p2 + p3, p4, m);
            if p4.contains(m) {
                lemma_pawn_member(((b.white_pawns & !H_FILE) << 9u64) & b.black_occupancy, true, 9, true, m);
            } else {
                lemma_add_contains(p1 + p2, p3, m);
                if p3.contains(m) {
                    lemma_pawn_member(((b.white_pawns & !A_FILE) << 7u64) & b.black_occupancy, true, 7, true, m);
                } else {
                    lemma_add_contains(p1, p2, m);
                    if p2.contains(m) {
                        lemma_pawn_member((single << 8u64) & !b.all_occupancy & RANK_4, true, 16, false, m);
                    } else {
                        lemma_pawn_member(single, true, 8, true, m);
                    }
                }
            }
        }
    }
}

/// A move of Black's pawns starts on one of its pawns.
proof fn lemma_black_pawn_source(b: Board, m: Move)
    requires
        black_pawn_moves(b).contains(m),
    ensures
        bit_set(b.black_pawns, m.source as int),
{
    broadcast use group_bits, group_mask_squares;

    let single = black_single_pushes(b);
    let p1 = pawn_moves_to(single, false, 8, true);
    let p2 = pawn_moves_to((single >> 8u64) & !b.all_occupancy & RANK_5, false, 16, false);
    let p3 = pawn_moves_to(((b.black_pawns & !H_FILE) >> 7u64) & b.white_occupancy, false, 7, true);
    let p4 = pawn_moves_to(((b.black_pawns & !A_FILE) >> 9u64) & b.white_occupancy, false, 9, true);
    let p5 = pawn_moves_to(((b.black_pawns & !H_FILE) >> 7u64) & b.en_passant_target, false, 7, false);
    let p6 = pawn_moves_to(((b.black_pawns & !A_FILE) >> 9u64) & b.en_passant_target, false, 9, false);
    assert(black_pawn_moves(b) == p1 + p2 + p3 + p4 + p5 + p6);
    lemma_add_contains(p1 + p2 + p3 + p4 + p5, p6, m);
    if p6.contains(m) {
        lemma_pawn_member(((b.black_pawns & !A_FILE) >> 9u64) & b.en_passant_target, false, 9, false, m);
    } else {
        lemma_add_contains(p1 + p2 + p3 + p4, p5, m);
        if p5.contains(m) {
            lemma_pawn_member(((b.black_pawns & !H_FILE) >> 7u64) & b.en_passant_target, false, 7, false, m);
        } else {
            lemma_add_contains(p1 + p2 + p3, p4, m);
            if p4.contains(m) {
                lemma_pawn_member(((b.black_pawns & !A_FILE) >> 9u64) & b.white_occupancy, false, 9, true, m);
            } else {
                lemma_add_contains(p1 + p2, p3, m);
                if p3.contains(m) {
                    lemma_pawn_member(((b.black_pawns & !H_FILE) >> 7u64) & b.white_occupancy, false, 7, true, m);
                } else {
                    lemma_add_contains(p1, p2, m);
                    if p2.contains(m) {
                        lemma_pawn_member((single >> 8u64) & !b.all_occupancy & RANK_5, false, 16, false, m);
                    } else {
                        lemma_pawn_member(single, false, 8, true, m);
                    }
                }
            }
        }
    }
}

/// A castling move, a king moving two squares from where it stands, is generated only when
/// the king's square, the square it crosses and the square it lands on are not attacked (no
/// castling out of, through or into check), only from e1 or e8 to a castling square whose
/// right the side to move holds, and only over empty squares between king and rook.
pub proof fn lemma_no_castling_out_of_check(b: Board, m: Move)
    requires
        pseudo_legal_moves(b).contains(m),
        moving_kind(b, m) == PieceType::King,
        move_distance(m) == 2,
    ensures
        !square_attacked(b, m.source as int, opponent(b.active_color)),
        !square_attacked(b, (m.source + m.target) / 2, opponent(b.active_color)),
        !square_attacked(b, m.target as int, opponent(b.active_color)),
        b.active_color == Color::White ==> m.source == 4 && (m.target == 6 && b.castling_rights
            & WK_CASTLING != 0 || m.target == 2 && b.castling_rights & WQ_CASTLING != 0),
        b.active_color == Color::Black ==> m.source == 60 && (m.target == 62 && b.castling_rights
            & BK_CASTLING != 0 || m.target == 58 && b.castling_rights & BQ_CASTLING != 0),
        m.target == 6 ==> !bit_set(b.all_occupancy, 5) && !bit_set(b.all_occupancy, 6),
        m.target == 2 ==> !bit_set(b.all_occupancy, 1) && !bit_set(b.all_occupancy, 2)
            && !bit_set(b.all_occupancy, 3),
        m.target == 62 ==> !bit_set(b.all_occupancy, 61) && !bit_set(b.all_occupancy, 62),
        m.target == 58 ==> !bit_set(b.all_occupancy, 57) && !bit_set(b.all_occupancy, 58)
            && !bit_set(b.all_occupancy, 59),
{
    broadcast use group_bits, group_mask_squares;

    let a = b.active_color;
    let pawns = if a == Color::White {
        white_pawn_moves(b)
    } else {
        black_pawn_moves(b)
    };
    let q1 = pawns + kind_moves(b, PieceType::Knight);
    let q2 = q1 + kind_moves(b, PieceType::Bishop);
    let q3 = q2 + kind_moves(b, PieceType::Rook);
    let q4 = q3 + kind_moves(b, PieceType::Queen);
    let q5 = q4 + kind_moves(b, PieceType::King);
    let cast = castling_moves(b);
    assert(pseudo_legal_moves(b) == q5 + cast);
    lemma_add_contains(q5, cast, m);
    if cast.contains(m) {
        let (x, y) = if a == Color::White {
            (
                castle_if(can_castle(b, WK_CASTLING, WK_EMPTY_MASK, 4, 5, 6), 4, 6),
                castle_if(can_castle(b, WQ_CASTLING, WQ_EMPTY_MASK, 4, 3, 2), 4, 2),
            )
        } else {
            (
                castle_if(can_castle(b, BK_CASTLING, BK_EMPTY_MASK, 60, 61, 62), 60, 62),
                castle_if(can_castle(b, BQ_CASTLING, BQ_EMPTY_MASK, 60, 59, 58), 60, 58),
            )
        };
        lemma_add_contains(x, y, m);
        if m.target == 6 {
            assert(!bit_set(b.all_occupancy & WK_EMPTY_MASK, 5));
            assert(!bit_set(b.all_occupancy & WK_EMPTY_MASK, 6));
        } else if m.target == 2 {
            assert(!bit_set(b.all_occupancy & WQ_EMPTY_MASK, 1));
            assert(!bit_set(b.all_occupancy & WQ_EMPTY_MASK, 2));
            assert(!bit_set(b.all_occupancy & WQ_EMPTY_MASK, 3));
        } else if m.target == 62 {
            assert(!bit_set(b.all_occupancy & BK_EMPTY_MASK, 61));
            assert(!bit_set(b.all_occupancy & BK_EMPTY_MASK, 62));
        } else {
            assert(!bit_set(b.all_occupancy & BQ_EMPTY_MASK, 57));
            assert(!bit_set(b.all_occupancy & BQ_EMPTY_MASK, 58));
            assert(!bit_set(b.all_occupancy & BQ_EMPTY_MASK, 59));
        }
    } else {
        lemma_add_contains(q4, kind_moves(b, PieceType::King), m);
        if kind_moves(b, PieceType::King).contains(m) {
            lemma_category_source(b, PieceType::King, m);
            assert(king_step(m.source as int, m.target as int));
            assert(false);
        } else {
            lemma_add_contains(q3, kind_moves(b, PieceType::Queen), m);
            if kind_moves(b, PieceType::Queen).contains(m) {
                lemma_category_source(b, PieceType::Queen, m);
            } else {
                lemma_add_contains(q2, kind_moves(b, PieceType::Rook), m);
                if kind_moves(b, PieceType::Rook).contains(m) {
                    lemma_category_source(b, PieceType::Rook, m);
                } else {
                    lemma_add_contains(q1, kind_moves(b, PieceType::Bishop), m);
                    if kind_moves(b, PieceType::Bishop).contains(m) {
                        lemma_category_source(b, PieceType::Bishop, m);
                    } else {
                        lemma_add_contains(pawns, kind_moves(b, PieceType::Knight), m);
                        if kind_moves(b, PieceType::Knight).contains(m) {
                            lemma_category_source(b, PieceType::Knight, m);
                        } else if a == Color::White {
                            lemma_white_pawn_source(b, m);
                        } else {
                            lemma_black_pawn_source(b, m);
                        }
                    }
                }
            }
            assert(false);
        }
    }
}

/// No legal move castles out of, through or into check (see `lemma_no_castling_out_of_check`).
pub proof fn lemma_no_legal_castling_out_of_check(b: Board, m: Move)
    requires
        legal_moves(b).contains(m),
        moving_kind(b, m) == PieceType::King,
        move_distance(m) == 2,
    ensures
        !square_attacked(b, m.source as int, opponent(b.active_color)),
        !square_attacked(b, (m.source + m.target) / 2, opponent(b.active_color)),
        !square_attacked(b, m.target as int, opponent(b.active_color)),
{
    lemma_legal_in_pseudo(b);
    lemma_no_castling_out_of_check(b, m);
}

} // verus!
