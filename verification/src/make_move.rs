use vstd::prelude::*;
use crate::attacks::abs;
use crate::bitboard::{bit_set, group_bits};
use crate::board::{Board, pieces, piece_at, color_union};
use crate::constants::{
    castling_rights_update, castling_keep_spec, WK_CASTLING, WQ_CASTLING, BK_CASTLING, BQ_CASTLING,
};
use crate::types::{Color, Move, PieceType, opponent};

verus! {

/// The kind of the piece that `mv` moves.
pub open spec fn moving_kind(b: Board, mv: Move) -> PieceType {
    piece_at(b, mv.source as int, b.active_color).unwrap()
}

/// The kind of the enemy piece on the target square, if any.
pub open spec fn captured_kind(b: Board, mv: Move) -> Option<PieceType> {
    piece_at(b, mv.target as int, opponent(b.active_color))
}

/// `mv` is a pawn move to another file onto a square without an enemy piece: an en-passant
/// capture.
pub open spec fn is_en_passant(b: Board, mv: Move) -> bool {
    &&& moving_kind(b, mv) == PieceType::Pawn
    &&& captured_kind(b, mv) is None
    &&& mv.source % 8 != mv.target % 8
}

/// The square of the pawn taken en passant: just behind the target square.
pub open spec fn en_passant_victim(b: Board, mv: Move) -> int {
    if b.active_color == Color::White {
        mv.target - 8
    } else {
        mv.target + 8
    }
}

/// The number of board indices between source and target.
pub open spec fn move_distance(mv: Move) -> int {
    abs(mv.target - mv.source)
}

/// The en-passant target after `mv`: the square a double pawn push skips, otherwise none.
pub open spec fn en_passant_after(b: Board, mv: Move) -> u64 {
    if moving_kind(b, mv) == PieceType::Pawn && move_distance(mv) == 16 {
        1u64 << (if b.active_color == Color::White {
            mv.source + 8
        } else {
            mv.source - 8
        }) as u64
    } else {
        0
    }
}

/// The en-passant victim removed from the enemy pawns.
pub open spec fn ep_term(b: Board, mv: Move, c: Color, k: PieceType) -> u64 {
    if c == opponent(b.active_color) && k == PieceType::Pawn && is_en_passant(b, mv) {
        1u64 << (en_passant_victim(b, mv) as u64)
    } else {
        0
    }
}

/// The captured piece removed from the target square.
pub open spec fn capture_term(b: Board, mv: Move, c: Color, k: PieceType) -> u64 {
    if c == opponent(b.active_color) && captured_kind(b, mv) == Some(k) {
        1u64 << (mv.target as u64)
    } else {
        0
    }
}

/// The moving piece taken from the source and put on the target.
pub open spec fn moved_term(b: Board, mv: Move, c: Color, k: PieceType) -> u64 {
    if c == b.active_color && k == moving_kind(b, mv) {
        (1u64 << (mv.source as u64)) | (1u64 << (mv.target as u64))
    } else {
        0
    }
}

/// On a promotion, the pawn taken off the target square.
pub open spec fn unpromoted_term(b: Board, mv: Move, c: Color, k: PieceType) -> u64 {
    if c == b.active_color && k == PieceType::Pawn && mv.promotion is Some {
        1u64 << (mv.target as u64)
    } else {
        0
    }
}

/// On a promotion, the promotion piece put on the target square.
pub open spec fn promoted_term(b: Board, mv: Move, c: Color, k: PieceType) -> u64 {
    if c == b.active_color && mv.promotion == Some(k) {
        1u64 << (mv.target as u64)
    } else {
        0
    }
}

/// The rook squares toggled by a castling move (a king move of two squares), by target.
pub open spec fn castling_rook_bits(b: Board, mv: Move, c: Color, k: PieceType) -> u64 {
    if moving_kind(b, mv) == PieceType::King && move_distance(mv) == 2 && k == PieceType::Rook {
        if mv.target == 6 && c == Color::White {
            (1u64 << 7u64) | (1u64 << 5u64)
        } else if mv.target == 2 && c == Color::White {
            (1u64 << 0u64) | (1u64 << 3u64)
        } else if mv.target == 62 && c == Color::Black {
            (1u64 << 63u64) | (1u64 << 61u64)
        } else if mv.target == 58 && c == Color::Black {
            (1u64 << 56u64) | (1u64 << 59u64)
        } else {
            0
        }
    } else {
        0
    }
}

/// The bitboard of color `c` and kind `k` after `mv`: an en-passant victim is removed, a
/// captured piece is removed from the target, the moving piece's bitboard toggles source and
/// target, a promotion takes the pawn off the target and adds the promotion piece there,
/// and castling moves the rook.
pub open spec fn make_move_pieces(b: Board, mv: Move, c: Color, k: PieceType) -> u64 {
    (((((pieces(b, c, k) ^ ep_term(b, mv, c, k)) ^ capture_term(b, mv, c, k)) ^ moved_term(
        b,
        mv,
        c,
        k,
    )) ^ unpromoted_term(b, mv, c, k)) | promoted_term(b, mv, c, k)) ^ castling_rook_bits(
        b,
        mv,
        c,
        k,
    )
}

/// The position after `mv`: pieces as `make_move_pieces` says, occupancies recomputed, the
/// castling rights that the source and target squares cancel removed, the en-passant target
/// set by a double pawn push, the half-move clock reset by a pawn move or capture and
/// otherwise advanced, the move number advanced after Black's move, and the other side to move.
pub open spec fn board_after(b: Board, mv: Move) -> Board {
    let wp = make_move_pieces(b, mv, Color::White, PieceType::Pawn);
    let wn = make_move_pieces(b, mv, Color::White, PieceType::Knight);
    let wb = make_move_pieces(b, mv, Color::White, PieceType::Bishop);
    let wr = make_move_pieces(b, mv, Color::White, PieceType::Rook);
    let wq = make_move_pieces(b, mv, Color::White, PieceType::Queen);
    let wk = make_move_pieces(b, mv, Color::White, PieceType::King);
    let bp = make_move_pieces(b, mv, Color::Black, PieceType::Pawn);
    let bn = make_move_pieces(b, mv, Color::Black, PieceType::Knight);
    let bb = make_move_pieces(b, mv, Color::Black, PieceType::Bishop);
    let br = make_move_pieces(b, mv, Color::Black, PieceType::Rook);
    let bq = make_move_pieces(b, mv, Color::Black, PieceType::Queen);
    let bk = make_move_pieces(b, mv, Color::Black, PieceType::King);
    let white = wp | wn | wb | wr | wq | wk;
    let black = bp | bn | bb | br | bq | bk;
    Board {
        white_pawns: wp,
        white_knights: wn,
        white_bishops: wb,
        white_rooks: wr,
        white_queens: wq,
        white_king: wk,
        white_occupancy: white,
        black_pawns: bp,
        black_knights: bn,
        black_bishops: bb,
        black_rooks: br,
        black_queens: bq,
        black_king: bk,
        black_occupancy: black,
        all_occupancy: white | black,
        active_color: opponent(b.active_color),
        castling_rights: b.castling_rights & castling_keep_spec(mv.source as int)
            & castling_keep_spec(mv.target as int),
        en_passant_target: en_passant_after(b, mv),
        half_move_clock: if moving_kind(b, mv) == PieceType::Pawn || captured_kind(b, mv) is Some {
            0
        } else {
            (b.half_move_clock + 1) as u8
        },
        full_move_number: if b.active_color == Color::Black {
            (b.full_move_number + 1) as u16
        } else {
            b.full_move_number
        },
    }
}

/// `mv` can be applied without overflow or a missing piece: both squares are on the board,
/// the side to move has a piece on the source, an en-passant victim square and a skipped
/// square are on the board, the half-move clock and move number have room to grow, and a
/// two-square king move goes to a castling target.
pub open spec fn move_ok(b: Board, mv: Move) -> bool {
    let a = b.active_color;
    &&& mv.source < 64
    &&& mv.target < 64
    &&& piece_at(b, mv.source as int, a) is Some
    &&& is_en_passant(b, mv) ==> 0 <= en_passant_victim(b, mv) < 64
    &&& moving_kind(b, mv) == PieceType::Pawn && move_distance(mv) == 16 ==> (if a == Color::White {
        mv.source + 8 < 64
    } else {
        mv.source >= 8
    })
    &&& !(moving_kind(b, mv) == PieceType::Pawn || captured_kind(b, mv) is Some)
        ==> b.half_move_clock < 255
    &&& a == Color::Black ==> b.full_move_number < 65535
    &&& moving_kind(b, mv) == PieceType::King && move_distance(mv) == 2 ==> (mv.target == 6
        || mv.target == 2 || mv.target == 62 || mv.target == 58)
}

proof fn bv_xor_or_zero(x: u64)
    by (bit_vector)
    ensures
        x ^ 0u64 == x,
        x | 0u64 == x,
{
}

impl Board {
    /// Toggles the squares of `mask` in the bitboard of color `c` and kind `k`.
    fn toggle_pieces(&mut self, c: Color, k: PieceType, mask: u64)
        ensures
            forall|c2: Color, k2: PieceType|
                #[trigger] pieces(*final(self), c2, k2) == if c2 == c && k2 == k {
                    pieces(*old(self), c2, k2) ^ mask
                } else {
                    pieces(*old(self), c2, k2)
                },
            final(self).castling_rights == old(self).castling_rights,
            final(self).active_color == old(self).active_color,
            final(self).half_move_clock == old(self).half_move_clock,
            final(self).full_move_number == old(self).full_move_number,
            final(self).en_passant_target == old(self).en_passant_target,
    {
        match c {
            Color::White => match k {
                PieceType::Pawn => self.white_pawns = self.white_pawns ^ mask,
                PieceType::Knight => self.white_knights = self.white_knights ^ mask,
                PieceType::Bishop => self.white_bishops = self.white_bishops ^ mask,
                PieceType::Rook => self.white_rooks = self.white_rooks ^ mask,
                PieceType::Queen => self.white_queens = self.white_queens ^ mask,
                PieceType::King => self.white_king = self.white_king ^ mask,
            },
            Color::Black => match k {
                PieceType::Pawn => self.black_pawns = self.black_pawns ^ mask,
                PieceType::Knight => self.black_knights = self.black_knights ^ mask,
                PieceType::Bishop => self.black_bishops = self.black_bishops ^ mask,
                PieceType::Rook => self.black_rooks = self.black_rooks ^ mask,
                PieceType::Queen => self.black_queens = self.black_queens ^ mask,
                PieceType::King => self.black_king = self.black_king ^ mask,
            },
        }
    }

    /// Adds the squares of `mask` to the bitboard of color `c` and kind `k`.
    fn add_pieces(&mut self, c: Color, k: PieceType, mask: u64)
        ensures
            forall|c2: Color, k2: PieceType|
                #[trigger] pieces(*final(self), c2, k2) == if c2 == c && k2 == k {
                    pieces(*old(self), c2, k2) | mask
                } else {
                    pieces(*old(self), c2, k2)
                },
            final(self).castling_rights == old(self).castling_rights,
            final(self).active_color == old(self).active_color,
            final(self).half_move_clock == old(self).half_move_clock,
            final(self).full_move_number == old(self).full_move_number,
            final(self).en_passant_target == old(self).en_passant_target,
    {
        match c {
            Color::White => match k {
                PieceType::Pawn => self.white_pawns = self.white_pawns | mask,
                PieceType::Knight => self.white_knights = self.white_knights | mask,
                PieceType::Bishop => self.white_bishops = self.white_bishops | mask,
                PieceType::Rook => self.white_rooks = self.white_rooks | mask,
                PieceType::Queen => self.white_queens = self.white_queens | mask,
                PieceType::King => self.white_king = self.white_king | mask,
            },
            Color::Black => match k {
                PieceType::Pawn => self.black_pawns = self.black_pawns | mask,
                PieceType::Knight => self.black_knights = self.black_knights | mask,
                PieceType::Bishop => self.black_bishops = self.black_bishops | mask,
                PieceType::Rook => self.black_rooks = self.black_rooks | mask,
                PieceType::Queen => self.black_queens = self.black_queens | mask,
                PieceType::King => self.black_king = self.black_king | mask,
            },
        }
    }

    /// Moves the pieces for `mv` (every piece bitboard ends as `make_move_pieces` says);
    /// other fields are left as they are.
    fn move_pieces(&mut self, mv: Move, moving_piece: PieceType, captured_piece: Option<PieceType>)
        requires
            move_ok(*old(self), mv),
            moving_piece == moving_kind(*old(self), mv),
            captured_piece == captured_kind(*old(self), mv),
        ensures
            forall|c: Color, k: PieceType|
                #[trigger] pieces(*final(self), c, k) == make_move_pieces(*old(self), mv, c, k),
            final(self).castling_rights == old(self).castling_rights,
            final(self).active_color == old(self).active_color,
            final(self).half_move_clock == old(self).half_move_clock,
            final(self).full_move_number == old(self).full_move_number,
            final(self).en_passant_target == old(self).en_passant_target,
    {
        let ghost b0 = *self;
        let source_bitboard = 1u64 << (mv.source as u64);
        let target_bitboard = 1u64 << (mv.target as u64);
        let move_mask = source_bitboard | target_bitboard;
        let active = self.active_color;
        let enemy_color = if active == Color::White {
            Color::Black
        } else {
            Color::White
        };
        if moving_piece == PieceType::Pawn && captured_piece.is_none() && (mv.source % 8) != (
        mv.target % 8) {
            let ep_capture_square = if active == Color::White {
                mv.target - 8
            } else {
                mv.target + 8
            };
            let ep_capture_bitboard = 1u64 << (ep_capture_square as u64);
            self.toggle_pieces(enemy_color, PieceType::Pawn, ep_capture_bitboard);
        }
        proof {
            assert forall|c: Color, k: PieceType|
                #[trigger] pieces(*self, c, k) == pieces(b0, c, k) ^ ep_term(b0, mv, c, k) by {
                bv_xor_or_zero(pieces(b0, c, k));
            }
        }
        let ghost b1 = *self;
        if let Some(piece) = captured_piece {
            self.toggle_pieces(enemy_color, piece, target_bitboard);
        }
        proof {
            assert forall|c: Color, k: PieceType|
                #[trigger] pieces(*self, c, k) == pieces(b1, c, k) ^ capture_term(b0, mv, c, k) by {
                bv_xor_or_zero(pieces(b1, c, k));
            }
        }
        let ghost b2 = *self;
        self.toggle_pieces(active, moving_piece, move_mask);
        proof {
            assert forall|c: Color, k: PieceType|
                #[trigger] pieces(*self, c, k) == pieces(b2, c, k) ^ moved_term(b0, mv, c, k) by {
                bv_xor_or_zero(pieces(b2, c, k));
            }
        }
        let ghost b3 = *self;
        if let Some(promotion_piece) = mv.promotion {
            self.toggle_pieces(active, PieceType::Pawn, target_bitboard);
            self.add_pieces(active, promotion_piece, target_bitboard);
        }
        proof {
            assert forall|c: Color, k: PieceType|
                #[trigger] pieces(*self, c, k) == (pieces(b3, c, k) ^ unpromoted_term(b0, mv, c, k))
                    | promoted_term(b0, mv, c, k) by {
                bv_xor_or_zero(pieces(b3, c, k));
                bv_xor_or_zero(pieces(b3, c, k) ^ unpromoted_term(b0, mv, c, k));
            }
        }
        let ghost b4 = *self;
        if moving_piece == PieceType::King {
            let distance = if mv.target >= mv.source {
                mv.target - mv.source
            } else {
                mv.source - mv.target
            };
            if distance == 2 {
                if mv.target == 6 {
                    self.white_rooks = self.white_rooks ^ ((1u64 << 7u64) | (1u64 << 5u64));
                } else if mv.target == 2 {
                    self.white_rooks = self.white_rooks ^ ((1u64 << 0u64) | (1u64 << 3u64));
                } else if mv.target == 62 {
                    self.black_rooks = self.black_rooks ^ ((1u64 << 63u64) | (1u64 << 61u64));
                } else {
                    self.black_rooks = self.black_rooks ^ ((1u64 << 56u64) | (1u64 << 59u64));
                }
            }
        }
        proof {
            assert forall|c: Color, k: PieceType|
                #[trigger] pieces(*self, c, k) == pieces(b4, c, k) ^ castling_rook_bits(b0, mv, c, k) by {
                bv_xor_or_zero(pieces(b4, c, k));
            }
            lemma_compose_stages(b0, b1, b2, b3, b4, *self, mv);
        }
    }

    /// Applies `mv` for the side to move: the piece bitboards change as `make_move_pieces`
    /// says, castling rights lose what the source and target squares cancel, the en-passant
    /// target is set by a double pawn push, the half-move clock restarts on a pawn move or
    /// capture, the move number grows after Black's move, the occupancies are recomputed and
    /// the other side is to move.
    pub fn make_move(&mut self, mv: Move)
        requires
            move_ok(*old(self), mv),
        ensures
            final(self).wf(),
            *final(self) == board_after(*old(self), mv),
    {
        let ghost b0 = *self;
        let active = self.active_color;
        let moving_piece = match self.piece_type_at(mv.source, active) {
            Some(p) => p,
            None => {
                proof {
                    assert(false);
                }
                PieceType::Pawn
            },
        };
        let enemy_color = if active == Color::White {
            Color::Black
        } else {
            Color::White
        };
        let captured_piece = self.piece_type_at(mv.target, enemy_color);
        self.move_pieces(mv, moving_piece, captured_piece);
        let ghost b1 = *self;
        self.castling_rights = self.castling_rights & castling_rights_update(mv.source)
            & castling_rights_update(mv.target);
        self.en_passant_target = 0;
        if moving_piece == PieceType::Pawn {
            let distance = if mv.target >= mv.source {
                mv.target - mv.source
            } else {
                mv.source - mv.target
            };
            if distance == 16 {
                let ep_target = if active == Color::White {
                    mv.source + 8
                } else {
                    mv.source - 8
                };
                self.en_passant_target = 1u64 << (ep_target as u64);
            }
        }
        if moving_piece == PieceType::Pawn || captured_piece.is_some() {
            self.half_move_clock = 0;
        } else {
            self.half_move_clock = self.half_move_clock + 1;
        }
        if active == Color::Black {
            self.full_move_number = self.full_move_number + 1;
        }
        self.white_occupancy = self.white_pawns | self.white_knights | self.white_bishops
            | self.white_rooks | self.white_queens | self.white_king;
        self.black_occupancy = self.black_pawns | self.black_knights | self.black_bishops
            | self.black_rooks | self.black_queens | self.black_king;
        self.all_occupancy = self.white_occupancy | self.black_occupancy;
        self.active_color = enemy_color;
        proof {
            let after = board_after(b0, mv);
            assert(forall|c: Color, k: PieceType| #[trigger] pieces(*self, c, k) == pieces(b1, c, k));
            assert(pieces(*self, Color::White, PieceType::Pawn) == pieces(after, Color::White, PieceType::Pawn));
            assert(pieces(*self, Color::White, PieceType::Knight) == pieces(after, Color::White, PieceType::Knight));
            assert(pieces(*self, Color::White, PieceType::Bishop) == pieces(after, Color::White, PieceType::Bishop));
            assert(pieces(*self, Color::White, PieceType::Rook) == pieces(after, Color::White, PieceType::Rook));
            assert(pieces(*self, Color::White, PieceType::Queen) == pieces(after, Color::White, PieceType::Queen));
            assert(pieces(*self, Color::White, PieceType::King) == pieces(after, Color::White, PieceType::King));
            assert(pieces(*self, Color::Black, PieceType::Pawn) == pieces(after, Color::Black, PieceType::Pawn));
            assert(pieces(*self, Color::Black, PieceType::Knight) == pieces(after, Color::Black, PieceType::Knight));
            assert(pieces(*self, Color::Black, PieceType::Bishop) == pieces(after, Color::Black, PieceType::Bishop));
            assert(pieces(*self, Color::Black, PieceType::Rook) == pieces(after, Color::Black, PieceType::Rook));
            assert(pieces(*self, Color::Black, PieceType::Queen) == pieces(after, Color::Black, PieceType::Queen));
            assert(pieces(*self, Color::Black, PieceType::King) == pieces(after, Color::Black, PieceType::King));
        }
    }
}

proof fn lemma_compose_stages(b0: Board, b1: Board, b2: Board, b3: Board, b4: Board, b5: Board, mv: Move)
    requires
        forall|c: Color, k: PieceType|
            #[trigger] pieces(b1, c, k) == pieces(b0, c, k) ^ ep_term(b0, mv, c, k),
        forall|c: Color, k: PieceType|
            #[trigger] pieces(b2, c, k) == pieces(b1, c, k) ^ capture_term(b0, mv, c, k),
        forall|c: Color, k: PieceType|
            #[trigger] pieces(b3, c, k) == pieces(b2, c, k) ^ moved_term(b0, mv, c, k),
        forall|c: Color, k: PieceType|
            #[trigger] pieces(b4, c, k) == (pieces(b3, c, k) ^ unpromoted_term(b0, mv, c, k))
                | promoted_term(b0, mv, c, k),
        forall|c: Color, k: PieceType|
            #[trigger] pieces(b5, c, k) == pieces(b4, c, k) ^ castling_rook_bits(b0, mv, c, k),
    ensures
        forall|c: Color, k: PieceType|
            #[trigger] pieces(b5, c, k) == make_move_pieces(b0, mv, c, k),
{
    assert forall|c: Color, k: PieceType|
        #[trigger] pieces(b5, c, k) == make_move_pieces(b0, mv, c, k) by {
        assert(pieces(b1, c, k) == pieces(b0, c, k) ^ ep_term(b0, mv, c, k));
        assert(pieces(b2, c, k) == pieces(b1, c, k) ^ capture_term(b0, mv, c, k));
        assert(pieces(b3, c, k) == pieces(b2, c, k) ^ moved_term(b0, mv, c, k));
        assert(pieces(b4, c, k) == (pieces(b3, c, k) ^ unpromoted_term(b0, mv, c, k))
            | promoted_term(b0, mv, c, k));
        assert(pieces(b5, c, k) == pieces(b4, c, k) ^ castling_rook_bits(b0, mv, c, k));
    }
}

/// A move hands the turn to the other side and never gives back a castling right.
pub proof fn lemma_move_turn_and_rights(b: Board, mv: Move)
    ensures
        board_after(b, mv).active_color == opponent(b.active_color),
        board_after(b, mv).castling_rights & !b.castling_rights == 0,
{
    let x = b.castling_rights;
    let y = castling_keep_spec(mv.source as int);
    let z = castling_keep_spec(mv.target as int);
    assert((x & y & z) & !x == 0) by (bit_vector);
}

/// No square holds two pieces: the twelve piece bitboards are pairwise disjoint.
pub open spec fn single_occupancy(b: Board) -> bool {
    forall|c1: Color, k1: PieceType, c2: Color, k2: PieceType, sq: int|
        #[trigger] bit_set(pieces(b, c1, k1), sq) && #[trigger] bit_set(pieces(b, c2, k2), sq)
            ==> c1 == c2 && k1 == k2
}

/// No piece stands on `sq`.
pub open spec fn empty_square(b: Board, sq: int) -> bool {
    forall|c: Color, k: PieceType| !#[trigger] bit_set(pieces(b, c, k), sq)
}

/// A castling move (a king move of two squares) matches the board: the side to move is the
/// one whose castling target it is, its rook stands in that corner and the square the rook
/// goes to is empty.
pub open spec fn castling_fits(b: Board, mv: Move) -> bool {
    let (c, corner, via) = if mv.target == 6 {
        (Color::White, 7int, 5int)
    } else if mv.target == 2 {
        (Color::White, 0int, 3int)
    } else if mv.target == 62 {
        (Color::Black, 63int, 61int)
    } else {
        (Color::Black, 56int, 59int)
    };
    &&& b.active_color == c
    &&& bit_set(pieces(b, c, PieceType::Rook), corner)
    &&& empty_square(b, via)
}

/// `mv` fits the board: it can be applied, its target holds no piece of the side to move,
/// only a pawn promotes, never to a king, an en-passant capture finds the enemy pawn behind the target, and
/// a castling move finds its rook.
pub open spec fn move_fits(b: Board, mv: Move) -> bool {
    let a = b.active_color;
    &&& move_ok(b, mv)
    &&& !bit_set(color_union(b, a), mv.target as int)
    &&& mv.promotion is Some ==> moving_kind(b, mv) == PieceType::Pawn && mv.promotion != Some(
        PieceType::King,
    )
    &&& is_en_passant(b, mv) ==> bit_set(pieces(b, opponent(a), PieceType::Pawn), en_passant_victim(b, mv))
    &&& moving_kind(b, mv) == PieceType::King && move_distance(mv) == 2 ==> castling_fits(b, mv)
}

pub(crate) proof fn lemma_pieces_after(b: Board, mv: Move, c: Color, k: PieceType)
    ensures
        pieces(board_after(b, mv), c, k) == make_move_pieces(b, mv, c, k),
{
}

pub(crate) proof fn lemma_term_bits(b: Board, mv: Move, c: Color, k: PieceType, sq: int)
    requires
        0 <= sq < 64,
        mv.source < 64,
        mv.target < 64,
        is_en_passant(b, mv) ==> 0 <= en_passant_victim(b, mv) < 64,
    ensures
        bit_set(ep_term(b, mv, c, k), sq) == (c == opponent(b.active_color) && k == PieceType::Pawn
            && is_en_passant(b, mv) && sq == en_passant_victim(b, mv)),
        bit_set(capture_term(b, mv, c, k), sq) == (c == opponent(b.active_color) && captured_kind(
            b,
            mv,
        ) == Some(k) && sq == mv.target),
        bit_set(moved_term(b, mv, c, k), sq) == (c == b.active_color && k == moving_kind(b, mv) && (
        sq == mv.source || sq == mv.target)),
        bit_set(unpromoted_term(b, mv, c, k), sq) == (c == b.active_color && k == PieceType::Pawn
            && mv.promotion is Some && sq == mv.target),
        bit_set(promoted_term(b, mv, c, k), sq) == (c == b.active_color && mv.promotion == Some(k)
            && sq == mv.target),
{
    broadcast use group_bits;

}

pub(crate) proof fn lemma_rook_bits(b: Board, mv: Move, c: Color, k: PieceType, sq: int)
    requires
        0 <= sq < 64,
    ensures
        bit_set(castling_rook_bits(b, mv, c, k), sq) == (moving_kind(b, mv) == PieceType::King
            && move_distance(mv) == 2 && k == PieceType::Rook && ((mv.target == 6 && c
            == Color::White && (sq == 7 || sq == 5)) || (mv.target == 2 && c == Color::White && (sq
            == 0 || sq == 3)) || (mv.target == 62 && c == Color::Black && (sq == 63 || sq == 61))
            || (mv.target == 58 && c == Color::Black && (sq == 56 || sq == 59)))),
{
    broadcast use group_bits;

}

/// Where a piece of color `c` and kind `k` stands after a fitting move: on the target if it
/// is the moved (or promoted) piece, on the rook's new square if castling moved it there, and
/// otherwise where it stood before, off the squares the move empties.
proof fn lemma_occupant_after(b: Board, mv: Move, c: Color, k: PieceType, sq: int)
    requires
        single_occupancy(b),
        move_fits(b, mv),
        0 <= sq < 64,
        bit_set(pieces(board_after(b, mv), c, k), sq),
    ensures
        ({
            let a = b.active_color;
            let castles = moving_kind(b, mv) == PieceType::King && move_distance(mv) == 2;
            let via = if mv.target == 6 {
                5int
            } else if mv.target == 2 {
                3int
            } else if mv.target == 62 {
                61int
            } else {
                59int
            };
            ||| sq == mv.target && c == a && k == (match mv.promotion {
                Some(p) => p,
                None => moving_kind(b, mv),
            })
            ||| castles && sq == via && c == a && k == PieceType::Rook
            ||| sq != mv.target && sq != mv.source && !(castles && sq == via) && bit_set(
                pieces(b, c, k),
                sq,
            )
        }),
{
    broadcast use group_bits;

    let a = b.active_color;
    let mk = moving_kind(b, mv);
    lemma_pieces_after(b, mv, c, k);
    lemma_term_bits(b, mv, c, k, sq);
    lemma_rook_bits(b, mv, c, k, sq);
    assert(bit_set(pieces(b, a, mk), mv.source as int));
    if is_en_passant(b, mv) {
        assert(bit_set(pieces(b, opponent(a), PieceType::Pawn), en_passant_victim(b, mv)));
    }
    if mk == PieceType::King && move_distance(mv) == 2 {
        assert(castling_fits(b, mv));
    }
}

/// Applying a move that fits the board keeps every square to at most one piece.
pub proof fn lemma_make_move_single_occupancy(b: Board, mv: Move)
    requires
        single_occupancy(b),
        move_fits(b, mv),
    ensures
        single_occupancy(board_after(b, mv)),
{
    assert forall|c1: Color, k1: PieceType, c2: Color, k2: PieceType, sq: int|
        #[trigger] bit_set(pieces(board_after(b, mv), c1, k1), sq) && #[trigger] bit_set(
            pieces(board_after(b, mv), c2, k2),
            sq,
        ) implies c1 == c2 && k1 == k2 by {
        lemma_occupant_after(b, mv, c1, k1, sq);
        lemma_occupant_after(b, mv, c2, k2, sq);
    }
}

proof fn bv_rights(r: u8, k1: u8, k2: u8)
    by (bit_vector)
    ensures
        (r & k1 & k2) & 1u8 != 0 <==> (r & 1u8 != 0 && k1 & 1u8 != 0 && k2 & 1u8 != 0),
        (r & k1 & k2) & 2u8 != 0 <==> (r & 2u8 != 0 && k1 & 2u8 != 0 && k2 & 2u8 != 0),
        (r & k1 & k2) & 4u8 != 0 <==> (r & 4u8 != 0 && k1 & 4u8 != 0 && k2 & 4u8 != 0),
        (r & k1 & k2) & 8u8 != 0 <==> (r & 8u8 != 0 && k1 & 8u8 != 0 && k2 & 8u8 != 0),
{
}

proof fn lemma_keep_bits(sq: int)
    ensures
        castling_keep_spec(sq) & 1u8 != 0 <==> sq != 4 && sq != 7,
        castling_keep_spec(sq) & 2u8 != 0 <==> sq != 4 && sq != 0,
        castling_keep_spec(sq) & 4u8 != 0 <==> sq != 60 && sq != 63,
        castling_keep_spec(sq) & 8u8 != 0 <==> sq != 60 && sq != 56,
{
    let k = castling_keep_spec(sq);
    assert(k == 0b1101u8 ==> k & 1u8 != 0 && k & 2u8 == 0 && k & 4u8 != 0 && k & 8u8 != 0)
        by (bit_vector);
    assert(k == 0b1100u8 ==> k & 1u8 == 0 && k & 2u8 == 0 && k & 4u8 != 0 && k & 8u8 != 0)
        by (bit_vector);
    assert(k == 0b1110u8 ==> k & 1u8 == 0 && k & 2u8 != 0 && k & 4u8 != 0 && k & 8u8 != 0)
        by (bit_vector);
    assert(k == 0b0111u8 ==> k & 1u8 != 0 && k & 2u8 != 0 && k & 4u8 != 0 && k & 8u8 == 0)
        by (bit_vector);
    assert(k == 0b0011u8 ==> k & 1u8 != 0 && k & 2u8 != 0 && k & 4u8 == 0 && k & 8u8 == 0)
        by (bit_vector);
    assert(k == 0b1011u8 ==> k & 1u8 != 0 && k & 2u8 != 0 && k & 4u8 == 0 && k & 8u8 != 0)
        by (bit_vector);
    assert(k == 0b1111u8 ==> k & 1u8 != 0 && k & 2u8 != 0 && k & 4u8 != 0 && k & 8u8 != 0)
        by (bit_vector);
}

/// After a move, each castling right is held exactly when it was held before and the move
/// neither starts nor ends on the squares of its king and rook: White's king side needs e1
/// and h1 untouched, its queen side e1 and a1, Black's king side e8 and h8, its queen side
/// e8 and a8.
pub proof fn lemma_castling_rights_after(b: Board, mv: Move)
    ensures
        ({
            let r = board_after(b, mv).castling_rights;
            let s = mv.source;
            let t = mv.target;
            &&& (r & WK_CASTLING != 0 <==> b.castling_rights & WK_CASTLING != 0 && s != 4 && t
                != 4 && s != 7 && t != 7)
            &&& (r & WQ_CASTLING != 0 <==> b.castling_rights & WQ_CASTLING != 0 && s != 4 && t
                != 4 && s != 0 && t != 0)
            &&& (r & BK_CASTLING != 0 <==> b.castling_rights & BK_CASTLING != 0 && s != 60 && t
                != 60 && s != 63 && t != 63)
            &&& (r & BQ_CASTLING != 0 <==> b.castling_rights & BQ_CASTLING != 0 && s != 60 && t
                != 60 && s != 56 && t != 56)
        }),
{
    let k1 = castling_keep_spec(mv.source as int);
    let k2 = castling_keep_spec(mv.target as int);
    bv_rights(b.castling_rights, k1, k2);
    lemma_keep_bits(mv.source as int);
    lemma_keep_bits(mv.target as int);
}

} // verus!
