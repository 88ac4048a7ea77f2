use vstd::prelude::*;
use crate::types::{Color, PieceType};
use crate::board::{Board, pieces};
use crate::bitboard::bit_set;
use vstd::std_specs::bits::{u64_trailing_zeros, axiom_u64_trailing_zeros};

verus! {

/// One xorshift step: `x ^= x << 13; x ^= x >> 7; x ^= x << 17`.
pub open spec fn xorshift(x: u64) -> u64 {
    let a = x ^ (x << 13u64);
    let b = a ^ (a >> 7u64);
    b ^ (b << 17u64)
}

/// The generator state after `n` xorshift steps from `seed`.
pub open spec fn xorshift_n(seed: u64, n: nat) -> u64
    decreases n,
{
    if n == 0 {
        seed
    } else {
        xorshift(xorshift_n(seed, (n - 1) as nat))
    }
}

/// The `m`-th sparse random number drawn from `seed`: the AND of three consecutive outputs.
pub open spec fn sparse_key(seed: u64, m: nat) -> u64 {
    xorshift_n(seed, 3 * m + 1) & xorshift_n(seed, 3 * m + 2) & xorshift_n(seed, 3 * m + 3)
}

/// A xorshift pseudo-random number generator.
pub struct Prng {
    state: u64,
}

impl View for Prng {
    type V = u64;

    /// The generator's current state.
    closed spec fn view(&self) -> u64 {
        self.state
    }
}

impl Prng {
    /// A generator seeded with `seed`.
    pub fn new(seed: u64) -> (p: Self)
        ensures
            p@ == seed,
    {
        Prng { state: seed }
    }

    /// The AND of the next three outputs, giving numbers with few set bits.
    pub fn random_sparse_u64(&mut self) -> (r: u64)
        ensures
            final(self)@ == xorshift(xorshift(xorshift(old(self)@))),
            r == xorshift(old(self)@) & xorshift(xorshift(old(self)@)) & xorshift(
                xorshift(xorshift(old(self)@)),
            ),
    {
        let a = self.rand64();
        let b = self.rand64();
        let c = self.rand64();
        a & b & c
    }

    /// Advances the state by one xorshift step and returns it.
    pub fn rand64(&mut self) -> (r: u64)
        ensures
            final(self)@ == xorshift(old(self)@),
            r == final(self)@,
    {
        self.state = self.state ^ (self.state << 13u64);
        self.state = self.state ^ (self.state >> 7u64);
        self.state = self.state ^ (self.state << 17u64);
        self.state
    }
}

/// The piece index 0..11: six white kinds then six black kinds, each in the order
/// pawn, knight, bishop, rook, queen, king.
pub open spec fn piece_index_spec(color: Color, piece_type: PieceType) -> int {
    (if color == Color::White {
        0int
    } else {
        6int
    }) + match piece_type {
        PieceType::Pawn => 0int,
        PieceType::Knight => 1int,
        PieceType::Bishop => 2int,
        PieceType::Rook => 3int,
        PieceType::Queen => 4int,
        PieceType::King => 5int,
    }
}

/// The index of a colored piece kind in the key tables.
pub fn get_piece_index(color: Color, piece_type: PieceType) -> (r: usize)
    ensures
        r == piece_index_spec(color, piece_type),
        r < 12,
{
    let color_offset: usize = if color == Color::White {
        0
    } else {
        6
    };
    let piece_offset: usize = match piece_type {
        PieceType::Pawn => 0,
        PieceType::Knight => 1,
        PieceType::Bishop => 2,
        PieceType::Rook => 3,
        PieceType::Queen => 4,
        PieceType::King => 5,
    };
    color_offset + piece_offset
}

/// The Zobrist keys: one per (piece, square), en-passant file, castling-rights value, and
/// the side to move.
pub struct ZobristKeys {
    pub piece_keys: [[u64; 64]; 12],
    pub en_passant_keys: [u64; 8],
    pub castle_keys: [u64; 16],
    pub side_key: u64,
}

/// The seed the keys are drawn from.
pub const ZOBRIST_SEED: u64 = 1010;

impl ZobristKeys {
    /// Each key is the sparse random number of its position in the drawing order
    /// (piece keys row by row, then en-passant, castling and side keys).
    pub open spec fn drawn_from_seed(&self) -> bool {
        &&& forall|p: int, sq: int|
            0 <= p < 12 && 0 <= sq < 64 ==> #[trigger] self.piece_keys[p][sq] == sparse_key(
                ZOBRIST_SEED,
                (p * 64 + sq) as nat,
            )
        &&& forall|i: int|
            0 <= i < 8 ==> #[trigger] self.en_passant_keys[i] == sparse_key(
                ZOBRIST_SEED,
                (768 + i) as nat,
            )
        &&& forall|i: int|
            0 <= i < 16 ==> #[trigger] self.castle_keys[i] == sparse_key(
                ZOBRIST_SEED,
                (776 + i) as nat,
            )
        &&& self.side_key == sparse_key(ZOBRIST_SEED, 792)
    }
}

/// The Zobrist keys drawn from `ZOBRIST_SEED`.
pub open spec fn seeded_keys() -> ZobristKeys {
    choose|k: ZobristKeys| k.drawn_from_seed()
}

/// Only one set of keys is drawn from the seed.
pub proof fn lemma_seeded_keys(k: ZobristKeys)
    requires
        k.drawn_from_seed(),
    ensures
        k == seeded_keys(),
{
    let j = seeded_keys();
    assert(j.drawn_from_seed());
    assert forall|p: int| 0 <= p < 12 implies #[trigger] k.piece_keys[p] == j.piece_keys[p] by {
        assert(k.piece_keys[p] =~= j.piece_keys[p]);
    }
    assert(k.piece_keys =~= j.piece_keys);
    assert(k.en_passant_keys =~= j.en_passant_keys);
    assert(k.castle_keys =~= j.castle_keys);
}

/// Draws `N` consecutive sparse numbers, continuing the generator, which has already drawn
/// `first` of them.
fn draw_keys<const N: usize>(prng: &mut Prng, Ghost(first): Ghost<nat>) -> (keys: [u64; N])
    requires
        old(prng)@ == xorshift_n(ZOBRIST_SEED, 3 * first),
    ensures
        final(prng)@ == xorshift_n(ZOBRIST_SEED, 3 * (first + N) as nat),
        forall|i: int| 0 <= i < N ==> #[trigger] keys[i] == sparse_key(ZOBRIST_SEED, (first + i) as nat),
{
    let mut keys = [0u64; N];
    let mut i: usize = 0;
    while i < N
        invariant
            i <= N,
            prng@ == xorshift_n(ZOBRIST_SEED, 3 * (first + i) as nat),
            forall|j: int| 0 <= j < i ==> #[trigger] keys[j] == sparse_key(ZOBRIST_SEED, (first + j) as nat),
        decreases N - i,
    {
        let ghost m: nat = 3 * (first + i) as nat;
        proof {
            assert(xorshift_n(ZOBRIST_SEED, m + 1) == xorshift(xorshift_n(ZOBRIST_SEED, m)));
            assert(xorshift_n(ZOBRIST_SEED, m + 2) == xorshift(xorshift_n(ZOBRIST_SEED, m + 1)));
            assert(xorshift_n(ZOBRIST_SEED, m + 3) == xorshift(xorshift_n(ZOBRIST_SEED, m + 2)));
        }
        keys[i] = prng.random_sparse_u64();
        i += 1;
    }
    keys
}

/// Draws all Zobrist keys from a generator seeded with `ZOBRIST_SEED`: the piece keys
/// row by row, then the en-passant, castling and side keys.
pub fn init_zobrist() -> (keys: ZobristKeys)
    ensures
        keys.drawn_from_seed(),
{
    let mut prng = Prng::new(ZOBRIST_SEED);
    let mut piece_keys = [[0u64; 64]; 12];
    let mut p: usize = 0;
    proof {
        assert(xorshift_n(ZOBRIST_SEED, 0) == ZOBRIST_SEED);
    }
    while p < 12
        invariant
            p <= 12,
            prng@ == xorshift_n(ZOBRIST_SEED, 3 * (p * 64) as nat),
            forall|q: int, sq: int|
                0 <= q < p && 0 <= sq < 64 ==> #[trigger] piece_keys[q][sq] == sparse_key(
                    ZOBRIST_SEED,
                    (q * 64 + sq) as nat,
                ),
        decreases 12 - p,
    {
        let row: [u64; 64] = draw_keys(&mut prng, Ghost((p * 64) as nat));
        piece_keys[p] = row;
        p += 1;
    }
    let en_passant_keys: [u64; 8] = draw_keys(&mut prng, Ghost(768));
    let castle_keys: [u64; 16] = draw_keys(&mut prng, Ghost(776));
    let side: [u64; 1] = draw_keys(&mut prng, Ghost(792));
    ZobristKeys { piece_keys, en_passant_keys, castle_keys, side_key: side[0] }
}

/// The bitboard of piece index `p` (see `piece_index_spec`).
pub open spec fn indexed_pieces(b: Board, p: int) -> u64 {
    if p < 6 {
        pieces(b, Color::White, kind_of_index(p))
    } else {
        pieces(b, Color::Black, kind_of_index(p - 6))
    }
}

/// The piece kind of a kind index 0..5.
pub open spec fn kind_of_index(i: int) -> PieceType {
    if i == 0 {
        PieceType::Pawn
    } else if i == 1 {
        PieceType::Knight
    } else if i == 2 {
        PieceType::Bishop
    } else if i == 3 {
        PieceType::Rook
    } else if i == 4 {
        PieceType::Queen
    } else {
        PieceType::King
    }
}

/// The XOR of the keys of the (piece index, square) pairs numbered below `m`
/// (pair `p * 64 + sq`) whose square holds that piece.
pub open spec fn pieces_hash(b: Board, keys: ZobristKeys, m: int) -> u64
    decreases m,
{
    if m <= 0 {
        0
    } else {
        let p = (m - 1) / 64;
        let sq = (m - 1) % 64;
        pieces_hash(b, keys, m - 1) ^ if bit_set(indexed_pieces(b, p), sq) {
            keys.piece_keys[p][sq]
        } else {
            0
        }
    }
}

/// The Zobrist hash of a position: the keys of all pieces on their squares, the side key
/// when Black is to move, the key of the castling rights, and the key of the en-passant
/// file when there is a target.
pub open spec fn hash_spec(b: Board, keys: ZobristKeys) -> u64 {
    let side = if b.active_color == Color::Black {
        keys.side_key
    } else {
        0
    };
    let ep = if b.en_passant_target != 0 {
        keys.en_passant_keys[(u64_trailing_zeros(b.en_passant_target) % 8) as int]
    } else {
        0
    };
    pieces_hash(b, keys, 768) ^ side ^ keys.castle_keys[(b.castling_rights & 15u8) as int] ^ ep
}

proof fn lemma_pieces_hash_clocks(b: Board, keys: ZobristKeys, half: u8, full: u16, m: int)
    ensures
        pieces_hash(Board { half_move_clock: half, full_move_number: full, ..b }, keys, m)
            == pieces_hash(b, keys, m),
    decreases m,
{
    if m > 0 {
        lemma_pieces_hash_clocks(b, keys, half, full, m - 1);
    }
}

/// The hash of a position does not depend on its half-move clock or move number.
pub proof fn lemma_hash_ignores_clocks(b: Board, keys: ZobristKeys, half: u8, full: u16)
    ensures
        hash_spec(Board { half_move_clock: half, full_move_number: full, ..b }, keys) == hash_spec(
            b,
            keys,
        ),
{
    lemma_pieces_hash_clocks(b, keys, half, full, 768);
}

/// The bitboard of piece index `p`.
fn pieces_of_index(board: &Board, p: usize) -> (r: u64)
    requires
        p < 12,
    ensures
        r == indexed_pieces(*board, p as int),
{
    match p {
        0 => board.white_pawns,
        1 => board.white_knights,
        2 => board.white_bishops,
        3 => board.white_rooks,
        4 => board.white_queens,
        5 => board.white_king,
        6 => board.black_pawns,
        7 => board.black_knights,
        8 => board.black_bishops,
        9 => board.black_rooks,
        10 => board.black_queens,
        _ => board.black_king,
    }
}

proof fn bv_low_nibble(x: u8)
    by (bit_vector)
    ensures
        x & 15u8 < 16,
{
}

/// Computes the Zobrist hash of `board` (see `hash_spec`).
pub fn zobrist_hash(board: &Board, keys: &ZobristKeys) -> (r: u64)
    ensures
        r == hash_spec(*board, *keys),
{
    let mut hash: u64 = 0;
    let mut p: usize = 0;
    while p < 12
        invariant
            p <= 12,
            hash == pieces_hash(*board, *keys, (p * 64) as int),
        decreases 12 - p,
    {
        let bitboard = pieces_of_index(board, p);
        let mut sq: u64 = 0;
        while sq < 64
            invariant
                p < 12,
                sq <= 64,
                bitboard == indexed_pieces(*board, p as int),
                hash == pieces_hash(*board, *keys, (p * 64 + sq) as int),
            decreases 64 - sq,
        {
            let m = p * 64 + sq as usize;
            assert((m as int) / 64 == p as int && (m as int) % 64 == sq as int);
            if (bitboard >> sq) & 1 == 1 {
                hash = hash ^ keys.piece_keys[p][sq as usize];
            } else {
                proof {
                    assert(hash ^ 0u64 == hash) by (bit_vector);
                }
            }
            sq = sq + 1;
        }
        p = p + 1;
    }
    if board.active_color == Color::Black {
        hash = hash ^ keys.side_key;
    } else {
        proof {
            assert(hash ^ 0u64 == hash) by (bit_vector);
        }
    }
    proof {
        bv_low_nibble(board.castling_rights);
    }
    hash = hash ^ keys.castle_keys[(board.castling_rights & 15) as usize];
    if board.en_passant_target != 0 {
        proof {
            axiom_u64_trailing_zeros(board.en_passant_target);
        }
        let file = (board.en_passant_target.trailing_zeros() % 8) as usize;
        hash = hash ^ keys.en_passant_keys[file];
    } else {
        proof {
            assert(hash ^ 0u64 == hash) by (bit_vector);
        }
    }
    hash
}

} // verus!
