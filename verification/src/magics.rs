use vstd::prelude::*;
use crate::zobrist::{Prng, sparse_key, xorshift_n};
use crate::bitboard::{
    bit_set, group_bits, lemma_zero_iff_empty, count_below, bb_from, lemma_bb_from, pop_count,
    pop_count_spec, lemma_single_bit, lemma_square_at, lemma_rank_file, rank_of, file_of,
    square_at, on_board,
};

verus! {

broadcast use group_bits;

/// A magic-bitboard lookup entry for one square.
#[derive(Debug, Clone, Copy, PartialEq, Eq, Structural)]
pub struct Magic {
    pub mask: u64,
    pub magic: u64,
    pub shift: u8,
    pub offset: usize,
}

/// `k` steps in direction `d` (one of -1, 0, 1).
pub open spec fn steps(k: int, d: int) -> int {
    if d > 0 {
        k
    } else if d < 0 {
        -k
    } else {
        0
    }
}

/// The square `k` steps from `s` in direction (`dr`, `df`).
pub open spec fn ray_square(s: int, dr: int, df: int, k: int) -> int {
    square_at(rank_of(s) + steps(k, dr), file_of(s) + steps(k, df))
}

/// The point `k` steps from `s` in direction (`dr`, `df`) lies on the board.
pub open spec fn ray_on_board(s: int, dr: int, df: int, k: int) -> bool {
    on_board(rank_of(s) + steps(k, dr), file_of(s) + steps(k, df))
}

/// How many steps from `s` in direction (`dr`, `df`) the square `t` would be.
pub open spec fn ray_index(s: int, dr: int, df: int, t: int) -> int {
    if dr != 0 {
        steps(rank_of(t) - rank_of(s), dr)
    } else {
        steps(file_of(t) - file_of(s), df)
    }
}

/// A valid ray direction.
pub open spec fn direction(dr: int, df: int) -> bool {
    -1 <= dr <= 1 && -1 <= df <= 1 && (dr != 0 || df != 0)
}

/// A slider on `s` moving in direction (`dr`, `df`) reaches `t`: `t` is on that ray and no
/// square of `block` lies strictly between `s` and `t`.
pub open spec fn ray_reach(s: int, dr: int, df: int, block: u64, t: int) -> bool {
    let k = ray_index(s, dr, df, t);
    &&& k >= 1
    &&& ray_on_board(s, dr, df, k)
    &&& t == ray_square(s, dr, df, k)
    &&& forall|j: int| 1 <= j < k ==> !#[trigger] bit_set(block, ray_square(s, dr, df, j))
}

/// `t` is on the ray from `s` in direction (`dr`, `df`) and is not its last square on the board.
pub open spec fn ray_inner(s: int, dr: int, df: int, t: int) -> bool {
    let k = ray_index(s, dr, df, t);
    &&& k >= 1
    &&& ray_on_board(s, dr, df, k)
    &&& ray_on_board(s, dr, df, k + 1)
    &&& t == ray_square(s, dr, df, k)
}

/// A bishop on `s` attacks `t` given the blockers `block`.
pub open spec fn bishop_attack(s: int, block: u64, t: int) -> bool {
    ||| ray_reach(s, 1, -1, block, t)
    ||| ray_reach(s, 1, 1, block, t)
    ||| ray_reach(s, -1, 1, block, t)
    ||| ray_reach(s, -1, -1, block, t)
}

/// A rook on `s` attacks `t` given the blockers `block`.
pub open spec fn rook_attack(s: int, block: u64, t: int) -> bool {
    ||| ray_reach(s, 1, 0, block, t)
    ||| ray_reach(s, 0, 1, block, t)
    ||| ray_reach(s, -1, 0, block, t)
    ||| ray_reach(s, 0, -1, block, t)
}

/// `t` is a relevant blocker square for a bishop on `s` (a diagonal square, board edge excluded).
pub open spec fn bishop_mask_square(s: int, t: int) -> bool {
    ||| ray_inner(s, 1, -1, t)
    ||| ray_inner(s, 1, 1, t)
    ||| ray_inner(s, -1, 1, t)
    ||| ray_inner(s, -1, -1, t)
}

/// `t` is a relevant blocker square for a rook on `s` (a line square, board edge excluded).
pub open spec fn rook_mask_square(s: int, t: int) -> bool {
    ||| ray_inner(s, 1, 0, t)
    ||| ray_inner(s, 0, 1, t)
    ||| ray_inner(s, -1, 0, t)
    ||| ray_inner(s, 0, -1, t)
}

/// Off the board at step `k`, the ray stays off the board.
pub proof fn lemma_ray_leaves(s: int, dr: int, df: int, k: int, j: int)
    requires
        0 <= s < 64,
        direction(dr, df),
        1 <= k <= j,
        !ray_on_board(s, dr, df, k),
    ensures
        !ray_on_board(s, dr, df, j),
{
    lemma_rank_file(s);
}

/// The square `k` steps along a ray has ray index `k`.
pub proof fn lemma_ray_index(s: int, dr: int, df: int, k: int)
    requires
        0 <= s < 64,
        direction(dr, df),
        ray_on_board(s, dr, df, k),
    ensures
        ray_index(s, dr, df, ray_square(s, dr, df, k)) == k,
        0 <= ray_square(s, dr, df, k) < 64,
{
    lemma_square_at(rank_of(s) + steps(k, dr), file_of(s) + steps(k, df));
}

/// `t` lies off the board's edge: neither on the first or last rank nor on the first or
/// last file.
pub open spec fn inner_square(t: int) -> bool {
    1 <= rank_of(t) <= 6 && 1 <= file_of(t) <= 6
}

/// Along a diagonal, the relevant blocker squares are the squares an unblocked slider
/// reaches that lie off the board's edge.
proof fn lemma_diagonal_inner(s: int, dr: int, df: int, t: int)
    requires
        0 <= s < 64,
        0 <= t < 64,
        dr == 1 || dr == -1,
        df == 1 || df == -1,
    ensures
        ray_inner(s, dr, df, t) <==> ray_reach(s, dr, df, 0u64, t) && inner_square(t),
{
    lemma_rank_file(s);
    lemma_rank_file(t);
    assert forall|j: int| !#[trigger] bit_set(0u64, j) by {
        if 0 <= j < 64 {
            let y = j as u64;
            assert((0u64 >> y) & 1u64 != 1u64) by (bit_vector);
        }
    }
    let k = ray_index(s, dr, df, t);
    if k >= 1 && ray_on_board(s, dr, df, k) && t == ray_square(s, dr, df, k) {
        lemma_square_at(rank_of(s) + steps(k, dr), file_of(s) + steps(k, df));
    }
}

/// The squares off the board's edge, as a bitboard.
pub const INNER_SQUARES: u64 = 0x007E_7E7E_7E7E_7E00;

/// The relevant blocker squares of a bishop are the squares it attacks on an empty board
/// that lie off the board's edge, which are the squares of `INNER_SQUARES`.
pub proof fn lemma_bishop_mask_inner(s: int, t: int)
    requires
        0 <= s < 64,
        0 <= t < 64,
    ensures
        bishop_mask_square(s, t) <==> bishop_attack(s, 0u64, t) && inner_square(t),
        inner_square(t) <==> bit_set(INNER_SQUARES, t),
{
    let y = t as u64;
    assert(((0x007E_7E7E_7E7E_7E00u64 >> y) & 1u64 == 1u64) <==> (1 <= y / 8 <= 6 && 1 <= y % 8
        <= 6)) by (bit_vector)
        requires
            y < 64,
    ;
    lemma_diagonal_inner(s, 1, -1, t);
    lemma_diagonal_inner(s, 1, 1, t);
    lemma_diagonal_inner(s, -1, 1, t);
    lemma_diagonal_inner(s, -1, -1, t);
}

/// Computes the squares a slider on `square` reaches in direction (`dr`, `df`): it walks
/// the ray, adding each square, and stops after the first square of `block`.
fn slide(square: u8, dr: i32, df: i32, block: u64) -> (r: u64)
    requires
        square < 64,
        direction(dr as int, df as int),
    ensures
        forall|t: int|
            0 <= t < 64 ==> (#[trigger] bit_set(r, t) <==> ray_reach(
                square as int,
                dr as int,
                df as int,
                block,
                t,
            )),
{
    let ghost s = square as int;
    let target_rank = (square / 8) as i32;
    let target_file = (square % 8) as i32;
    let mut attacks: u64 = 0;
    let mut rank = target_rank + dr;
    let mut file = target_file + df;
    let mut open = true;
    let ghost mut k: int = 1;
    proof {
        lemma_rank_file(s);
    }
    while open && 0 <= rank && rank <= 7 && 0 <= file && file <= 7
        invariant
            0 <= s < 64,
            s == square as int,
            direction(dr as int, df as int),
            target_rank == rank_of(s),
            target_file == file_of(s),
            1 <= k <= 9,
            rank == rank_of(s) + steps(k, dr as int),
            file == file_of(s) + steps(k, df as int),
            open ==> forall|j: int|
                1 <= j < k ==> !#[trigger] bit_set(block, ray_square(s, dr as int, df as int, j)),
            !open ==> k >= 2 && ray_on_board(s, dr as int, df as int, k - 1) && bit_set(
                block,
                ray_square(s, dr as int, df as int, k - 1),
            ) && forall|j: int|
                1 <= j < k - 1 ==> !#[trigger] bit_set(
                    block,
                    ray_square(s, dr as int, df as int, j),
                ),
            forall|t: int|
                0 <= t < 64 ==> (#[trigger] bit_set(attacks, t) <==> {
                    let j = ray_index(s, dr as int, df as int, t);
                    1 <= j < k && ray_on_board(s, dr as int, df as int, j) && t == ray_square(
                        s,
                        dr as int,
                        df as int,
                        j,
                    )
                }),
        decreases 9 - k,
    {
        let current_square = (rank * 8 + file) as u8;
        proof {
            lemma_ray_index(s, dr as int, df as int, k);
            lemma_single_bit(current_square as u64);
        }
        let bit = 1u64 << (current_square as u64);
        proof {
            assert(current_square as int == ray_square(s, dr as int, df as int, k));
            lemma_zero_iff_empty(block & bit);
            if bit_set(block, current_square as int) {
                assert(bit_set(block & bit, current_square as int));
            }
        }
        attacks = attacks | bit;
        if (block & bit) != 0 {
            open = false;
        }
        rank = rank + dr;
        file = file + df;
        proof {
            k = k + 1;
        }
    }
    proof {
        assert forall|t: int| 0 <= t < 64 implies (#[trigger] bit_set(attacks, t) <==> ray_reach(
            s,
            dr as int,
            df as int,
            block,
            t,
        )) by {
            let j = ray_index(s, dr as int, df as int, t);
            if open && j >= k {
                lemma_ray_leaves(s, dr as int, df as int, k, j);
            }
        }
    }
    attacks
}

/// Computes the relevant blocker squares in direction (`dr`, `df`) from `square`: every ray
/// square except the last one on the board.
fn slide_mask(square: u8, dr: i32, df: i32) -> (r: u64)
    requires
        square < 64,
        direction(dr as int, df as int),
    ensures
        forall|t: int|
            0 <= t < 64 ==> (#[trigger] bit_set(r, t) <==> ray_inner(
                square as int,
                dr as int,
                df as int,
                t,
            )),
{
    let ghost s = square as int;
    let target_rank = (square / 8) as i32;
    let target_file = (square % 8) as i32;
    let mut attacks: u64 = 0;
    let mut rank = target_rank + dr;
    let mut file = target_file + df;
    let ghost mut k: int = 1;
    proof {
        lemma_rank_file(s);
    }
    while 0 <= rank + dr && rank + dr <= 7 && 0 <= file + df && file + df <= 7
        invariant
            0 <= s < 64,
            s == square as int,
            direction(dr as int, df as int),
            1 <= k <= 9,
            rank == rank_of(s) + steps(k, dr as int),
            file == file_of(s) + steps(k, df as int),
            k >= 2 ==> ray_on_board(s, dr as int, df as int, k - 1),
            forall|t: int|
                0 <= t < 64 ==> (#[trigger] bit_set(attacks, t) <==> {
                    let j = ray_index(s, dr as int, df as int, t);
                    1 <= j < k && ray_on_board(s, dr as int, df as int, j) && ray_on_board(
                        s,
                        dr as int,
                        df as int,
                        j + 1,
                    ) && t == ray_square(s, dr as int, df as int, j)
                }),
        decreases 9 - k,
    {
        assert(ray_on_board(s, dr as int, df as int, k));
        let current_square = (rank * 8 + file) as u8;
        proof {
            lemma_ray_index(s, dr as int, df as int, k);
            lemma_single_bit(current_square as u64);
        }
        attacks = attacks | (1u64 << (current_square as u64));
        rank = rank + dr;
        file = file + df;
        proof {
            k = k + 1;
        }
    }
    proof {
        assert forall|t: int| 0 <= t < 64 implies (#[trigger] bit_set(attacks, t) <==> ray_inner(
            s,
            dr as int,
            df as int,
            t,
        )) by {
            let j = ray_index(s, dr as int, df as int, t);
            if j >= k {
                lemma_ray_leaves(s, dr as int, df as int, k + 1, j + 1);
            }
        }
    }
    attacks
}

/// The relevant blocker squares of a bishop on `square`.
pub fn mask_bishop_attacks(square: u8) -> (r: u64)
    requires
        square < 64,
    ensures
        forall|t: int|
            0 <= t < 64 ==> (#[trigger] bit_set(r, t) <==> bishop_mask_square(square as int, t)),
{
    slide_mask(square, 1, -1) | slide_mask(square, 1, 1) | slide_mask(square, -1, 1) | slide_mask(
        square,
        -1,
        -1,
    )
}

/// The relevant blocker squares of a rook on `square`.
pub fn mask_rook_attacks(square: u8) -> (r: u64)
    requires
        square < 64,
    ensures
        forall|t: int|
            0 <= t < 64 ==> (#[trigger] bit_set(r, t) <==> rook_mask_square(square as int, t)),
{
    slide_mask(square, 1, 0) | slide_mask(square, 0, 1) | slide_mask(square, -1, 0) | slide_mask(
        square,
        0,
        -1,
    )
}

/// The squares a bishop on `square` attacks, computed ray by ray against the blockers `block`.
pub fn bishop_attacks_slow(square: u8, block: u64) -> (r: u64)
    requires
        square < 64,
    ensures
        forall|t: int|
            0 <= t < 64 ==> (#[trigger] bit_set(r, t) <==> bishop_attack(square as int, block, t)),
{
    slide(square, 1, -1, block) | slide(square, 1, 1, block) | slide(square, -1, 1, block)
        | slide(square, -1, -1, block)
}

/// The squares a rook on `square` attacks, computed ray by ray against the blockers `block`.
pub fn rook_attacks_slow(square: u8, block: u64) -> (r: u64)
    requires
        square < 64,
    ensures
        forall|t: int|
            0 <= t < 64 ==> (#[trigger] bit_set(r, t) <==> rook_attack(square as int, block, t)),
{
    slide(square, 1, 0, block) | slide(square, 0, 1, block) | slide(square, -1, 0, block) | slide(
        square,
        0,
        -1,
        block,
    )
}

/// Bit `i` of `index` is set (bits beyond the width of `usize` count as clear).
pub open spec fn index_bit(index: usize, i: int) -> bool {
    0 <= i < usize::BITS && (index >> (i as usize)) & 1usize == 1usize
}

/// The blocker configuration number `index` of `mask`: the `i`-th lowest square of `mask`
/// is occupied exactly when bit `i` of `index` is set.
pub fn set_occupancy(index: usize, mask: u64) -> (r: u64)
    ensures
        forall|t: int|
            0 <= t < 64 ==> (#[trigger] bit_set(r, t) <==> (bit_set(mask, t) && index_bit(
                index,
                count_below(mask, t) as int,
            ))),
{
    let mut occupancy: u64 = 0;
    let mut i: u64 = 0;
    let mut square: u64 = 0;
    while square < 64
        invariant
            square <= 64,
            i == count_below(mask, square as int),
            i <= square,
            forall|t: int|
                0 <= t < 64 ==> (#[trigger] bit_set(occupancy, t) <==> (t < square && bit_set(
                    mask,
                    t,
                ) && index_bit(index, count_below(mask, t) as int))),
        decreases 64 - square,
    {
        if (mask >> square) & 1 == 1 {
            proof {
                lemma_single_bit(square);
            }
            if i < usize::BITS as u64 && (index >> (i as usize)) & 1 == 1 {
                occupancy = occupancy | (1u64 << square);
            }
            i = i + 1;
        }
        square = square + 1;
    }
    occupancy
}

/// The table index of `occupancy` under a magic entry: the relevant blockers times the magic
/// number (wrapping), shifted right by the entry's shift.
pub fn get_magic_index(magic_entry: &Magic, occupancy: u64) -> (r: usize)
    requires
        magic_entry.shift < 64,
    ensures
        r == (((occupancy & magic_entry.mask).wrapping_mul(magic_entry.magic)) >> (
        magic_entry.shift as u64)) as usize,
{
    let blockers = occupancy & magic_entry.mask;
    ((blockers.wrapping_mul(magic_entry.magic)) >> (magic_entry.shift as u64)) as usize
}

/// The squares a bishop on `square` attacks given the board occupancy.
pub fn get_bishop_attacks(square: u8, occupancy: u64) -> (r: u64)
    requires
        square < 64,
    ensures
        forall|t: int|
            0 <= t < 64 ==> (#[trigger] bit_set(r, t) <==> bishop_attack(
                square as int,
                occupancy,
                t,
            )),
{
    bishop_attacks_slow(square, occupancy)
}

/// The squares a rook on `square` attacks given the board occupancy.
pub fn get_rook_attacks(square: u8, occupancy: u64) -> (r: u64)
    requires
        square < 64,
    ensures
        forall|t: int|
            0 <= t < 64 ==> (#[trigger] bit_set(r, t) <==> rook_attack(square as int, occupancy, t)),
{
    rook_attacks_slow(square, occupancy)
}

/// The squares a queen on `square` attacks: the union of the bishop and rook attacks.
pub fn get_queen_attacks(square: u8, occupancy: u64) -> (r: u64)
    requires
        square < 64,
    ensures
        forall|t: int|
            0 <= t < 64 ==> (#[trigger] bit_set(r, t) <==> (bishop_attack(
                square as int,
                occupancy,
                t,
            ) || rook_attack(square as int, occupancy, t))),
{
    get_bishop_attacks(square, occupancy) | get_rook_attacks(square, occupancy)
}

/// Blocker configuration number `index` of `mask` as a bitboard.
pub open spec fn occupancy_bb(index: usize, mask: u64) -> u64 {
    bb_from(|t: int| bit_set(mask, t) && index_bit(index, count_below(mask, t) as int))
}

/// The relevant blocker mask of a rook (or bishop) on `square` as a bitboard.
pub open spec fn slider_mask_bb(square: int, is_rook: bool) -> u64 {
    bb_from(
        |t: int|
            if is_rook {
                rook_mask_square(square, t)
            } else {
                bishop_mask_square(square, t)
            },
    )
}

/// The attack set of a rook (or bishop) on `square` against `block` as a bitboard.
pub open spec fn slider_attacks_bb(square: int, block: u64, is_rook: bool) -> u64 {
    bb_from(
        |t: int|
            if is_rook {
                rook_attack(square, block, t)
            } else {
                bishop_attack(square, block, t)
            },
    )
}

/// The table slot of a blocker configuration: the top `bits` bits of its product with the
/// magic number.
pub open spec fn magic_slot(occupancy: u64, magic: u64, bits: u8) -> int {
    (occupancy.wrapping_mul(magic) >> ((64 - bits) as u64)) as int
}

/// The number of blocker configurations of a mask with `bits` squares.
pub open spec fn permutations(bits: u8) -> int {
    (1usize << (bits as usize)) as int
}

/// `magic` sends any two blocker configurations of the square's mask that share a slot to
/// the same attack set.
pub open spec fn magic_valid(square: int, bits: u8, is_rook: bool, magic: u64) -> bool {
    let mask = slider_mask_bb(square, is_rook);
    forall|i: usize, j: usize|
        i < permutations(bits) && j < permutations(bits) && magic_slot(
            #[trigger] occupancy_bb(i, mask),
            magic,
            bits,
        ) == magic_slot(#[trigger] occupancy_bb(j, mask), magic, bits) ==> slider_attacks_bb(
            square,
            occupancy_bb(i, mask),
            is_rook,
        ) == slider_attacks_bb(square, occupancy_bb(j, mask), is_rook)
}

/// `magic` passes the search: its product with the mask has at least six of the top eight
/// bits set, and it is valid.
pub open spec fn magic_accepted(square: int, bits: u8, is_rook: bool, magic: u64) -> bool {
    &&& pop_count_spec(slider_mask_bb(square, is_rook).wrapping_mul(magic) & 0xFF00_0000_0000_0000u64)
        >= 6
    &&& magic_valid(square, bits, is_rook, magic)
}

/// The seed of the magic-number search.
pub const MAGIC_SEED: u64 = 1010;

/// The number of candidates the magic-number search tries.
pub const MAGIC_TRIES: u64 = 100_000_000;

pub proof fn bv_slot_bound(x: u64, bits: u8)
    by (bit_vector)
    requires
        1 <= bits <= 12,
    ensures
        (x >> ((64 - bits) as u64)) < (1u64 << (bits as u64)),
        (1u64 << (bits as u64)) <= 4096,
{
}

pub proof fn bv_perm_bound(bits: usize)
    by (bit_vector)
    requires
        1 <= bits <= 12,
    ensures
        (1usize << bits) <= 4096,
        (1usize << bits) as u64 == (1u64 << (bits as u64)),
{
}

/// Every square has a neighbour that a slider on it attacks, so an attack set is never empty.
proof fn lemma_attacks_nonempty(square: int, block: u64, is_rook: bool, att: u64)
    requires
        0 <= square < 64,
        forall|t: int|
            0 <= t < 64 ==> (#[trigger] bit_set(att, t) <==> if is_rook {
                rook_attack(square, block, t)
            } else {
                bishop_attack(square, block, t)
            }),
    ensures
        att != 0,
{
    lemma_rank_file(square);
    let dr: int = if rank_of(square) < 7 {
        1
    } else {
        -1
    };
    let df: int = if is_rook {
        0
    } else if file_of(square) < 7 {
        1
    } else {
        -1
    };
    lemma_ray_index(square, dr, df, 1);
    let t = ray_square(square, dr, df, 1);
    assert(ray_reach(square, dr, df, block, t));
    assert(bit_set(att, t));
    lemma_zero_iff_empty(att);
}

/// Searches the sparse random numbers drawn from `MAGIC_SEED`, in order, for the first one
/// accepted as magic number of `square` (see `magic_accepted`); gives up after
/// `MAGIC_TRIES` candidates.
#[verifier::loop_isolation(false)]
pub fn find_magic(square: u8, relevant_bits: u8, is_rook: bool) -> (r: Option<u64>)
    requires
        square < 64,
        1 <= relevant_bits <= 12,
    ensures
        r matches Some(m) ==> exists|k: nat|
            k < MAGIC_TRIES && m == sparse_key(MAGIC_SEED, k) && magic_accepted(
                square as int,
                relevant_bits,
                is_rook,
                m,
            ) && forall|j: nat|
                j < k ==> !magic_accepted(
                    square as int,
                    relevant_bits,
                    is_rook,
                    #[trigger] sparse_key(MAGIC_SEED, j),
                ),
        r is None ==> forall|j: nat|
            j < MAGIC_TRIES ==> !magic_accepted(
                square as int,
                relevant_bits,
                is_rook,
                #[trigger] sparse_key(MAGIC_SEED, j),
            ),
{
    let ghost sq = square as int;
    let mask = if is_rook {
        mask_rook_attacks(square)
    } else {
        mask_bishop_attacks(square)
    };
    proof {
        lemma_bb_from(
            mask,
            |t: int|
                if is_rook {
                    rook_mask_square(sq, t)
                } else {
                    bishop_mask_square(sq, t)
                },
        );
        bv_perm_bound(relevant_bits as usize);
    }
    let num_permutations: usize = 1usize << (relevant_bits as usize);
    let mut occupancies: Vec<u64> = Vec::new();
    let mut attacks: Vec<u64> = Vec::new();
    let mut index: usize = 0;
    while index < num_permutations
        invariant
            index <= num_permutations,
            num_permutations == permutations(relevant_bits),
            square < 64,
            sq == square as int,
            mask == slider_mask_bb(sq, is_rook),
            occupancies@.len() == index,
            attacks@.len() == index,
            forall|j: int|
                0 <= j < index ==> #[trigger] occupancies@[j] == occupancy_bb(j as usize, mask),
            forall|j: int|
                0 <= j < index ==> #[trigger] attacks@[j] == slider_attacks_bb(
                    sq,
                    occupancies@[j],
                    is_rook,
                ) && attacks@[j] != 0,
        decreases num_permutations - index,
    {
        let occupancy = set_occupancy(index, mask);
        let attack = if is_rook {
            rook_attacks_slow(square, occupancy)
        } else {
            bishop_attacks_slow(square, occupancy)
        };
        proof {
            lemma_bb_from(
                occupancy,
                |t: int| bit_set(mask, t) && index_bit(index, count_below(mask, t) as int),
            );
            lemma_bb_from(
                attack,
                |t: int|
                    if is_rook {
                        rook_attack(sq, occupancy, t)
                    } else {
                        bishop_attack(sq, occupancy, t)
                    },
            );
            lemma_attacks_nonempty(sq, occupancy, is_rook, attack);
        }
        occupancies.push(occupancy);
        attacks.push(attack);
        index += 1;
    }
    let mut used_attacks: Vec<u64> = Vec::new();
    let mut k: usize = 0;
    while k < 4096
        invariant
            k <= 4096,
            used_attacks@.len() == k,
        decreases 4096 - k,
    {
        used_attacks.push(0);
        k += 1;
    }
    let mut prng = Prng::new(MAGIC_SEED);
    let mut tries: u64 = 0;
    while tries < MAGIC_TRIES
        invariant
            tries <= MAGIC_TRIES,
            prng@ == xorshift_n(MAGIC_SEED, (3 * tries) as nat),
            1 <= relevant_bits <= 12,
            num_permutations == permutations(relevant_bits),
            num_permutations <= 4096,
            mask == slider_mask_bb(sq, is_rook),
            used_attacks@.len() == 4096,
            occupancies@.len() == num_permutations,
            attacks@.len() == num_permutations,
            forall|j: int|
                0 <= j < num_permutations ==> #[trigger] occupancies@[j] == occupancy_bb(
                    j as usize,
                    mask,
                ),
            forall|j: int|
                0 <= j < num_permutations ==> #[trigger] attacks@[j] == slider_attacks_bb(
                    sq,
                    occupancies@[j],
                    is_rook,
                ) && attacks@[j] != 0,
            forall|j: nat|
                j < tries ==> !magic_accepted(
                    sq,
                    relevant_bits,
                    is_rook,
                    #[trigger] sparse_key(MAGIC_SEED, j),
                ),
        decreases MAGIC_TRIES - tries,
    {
        let ghost m3: nat = (3 * tries) as nat;
        proof {
            assert(xorshift_n(MAGIC_SEED, m3 + 1) == crate::zobrist::xorshift(xorshift_n(MAGIC_SEED, m3)));
            assert(xorshift_n(MAGIC_SEED, m3 + 2) == crate::zobrist::xorshift(xorshift_n(MAGIC_SEED, m3 + 1)));
            assert(xorshift_n(MAGIC_SEED, m3 + 3) == crate::zobrist::xorshift(xorshift_n(MAGIC_SEED, m3 + 2)));
        }
        let magic = prng.random_sparse_u64();
        assert(magic == sparse_key(MAGIC_SEED, tries as nat));
        if pop_count(mask.wrapping_mul(magic) & 0xFF00_0000_0000_0000) < 6 {
            tries += 1;
            continue;
        }
        let mut c: usize = 0;
        while c < 4096
            invariant
                c <= 4096,
                used_attacks@.len() == 4096,
                forall|j: int| 0 <= j < c ==> #[trigger] used_attacks@[j] == 0,
            decreases 4096 - c,
        {
            used_attacks.set(c, 0);
            c += 1;
        }
        proof {
            assert forall|j: int| 0 <= j < num_permutations implies 0 <= #[trigger] magic_slot(
                occupancies@[j],
                magic,
                relevant_bits,
            ) < num_permutations by {
                bv_slot_bound(occupancies@[j].wrapping_mul(magic), relevant_bits);
                bv_perm_bound(relevant_bits as usize);
            }
        }
        let ghost mut owner: Seq<int> = Seq::new(4096, |j: int| -1);
        let mut fail = false;
        let mut i: usize = 0;
        while i < num_permutations && !fail
            invariant
                i <= num_permutations,
                1 <= relevant_bits <= 12,
                num_permutations <= 4096,
                used_attacks@.len() == 4096,
                owner.len() == 4096,
                occupancies@.len() == num_permutations,
                attacks@.len() == num_permutations,
                forall|j: int|
                    0 <= j < num_permutations ==> #[trigger] attacks@[j] != 0,
                forall|j: int|
                    0 <= j < num_permutations ==> 0 <= #[trigger] magic_slot(
                        occupancies@[j],
                        magic,
                        relevant_bits,
                    ) < num_permutations,
                forall|slot: int|
                    0 <= slot < 4096 && #[trigger] used_attacks@[slot] != 0 ==> 0 <= owner[slot] < i
                        && magic_slot(occupancies@[owner[slot]], magic, relevant_bits) == slot
                        && used_attacks@[slot] == attacks@[owner[slot]],
                !fail ==> forall|j: int|
                    0 <= j < i ==> used_attacks@[magic_slot(#[trigger] occupancies@[j], magic, relevant_bits)]
                        == attacks@[j],
                fail ==> exists|j1: int, j2: int|
                    0 <= j1 < num_permutations && 0 <= j2 < num_permutations && magic_slot(
                        #[trigger] occupancies@[j1],
                        magic,
                        relevant_bits,
                    ) == magic_slot(#[trigger] occupancies@[j2], magic, relevant_bits) && attacks@[j1]
                        != attacks@[j2],
            decreases num_permutations - i,
        {
            proof {
                bv_slot_bound(occupancies@[i as int].wrapping_mul(magic), relevant_bits);
                assert(0 <= magic_slot(occupancies@[i as int], magic, relevant_bits) < num_permutations);
            }
            let slot = ((occupancies[i].wrapping_mul(magic)) >> ((64 - relevant_bits) as u64)) as usize;
            if used_attacks[slot] == 0 {
                used_attacks.set(slot, attacks[i]);
                proof {
                    owner = owner.update(slot as int, i as int);
                }
            } else if used_attacks[slot] != attacks[i] {
                fail = true;
                proof {
                    let j1 = owner[slot as int];
                    assert(magic_slot(occupancies@[j1], magic, relevant_bits) == magic_slot(occupancies@[i as int], magic, relevant_bits));
                }
            }
            i += 1;
        }
        if !fail {
            proof {
                assert forall|a: usize, b: usize|
                    a < permutations(relevant_bits) && b < permutations(relevant_bits) && magic_slot(
                        #[trigger] occupancy_bb(a, mask),
                        magic,
                        relevant_bits,
                    ) == magic_slot(#[trigger] occupancy_bb(b, mask), magic, relevant_bits)
                    implies slider_attacks_bb(sq, occupancy_bb(a, mask), is_rook) == slider_attacks_bb(
                    sq,
                    occupancy_bb(b, mask),
                    is_rook,
                ) by {
                    assert(occupancies@[a as int] == occupancy_bb(a, mask));
                    assert(occupancies@[b as int] == occupancy_bb(b, mask));
                    assert(attacks@[a as int] == attacks@[b as int]);
                }
                assert(magic_accepted(sq, relevant_bits, is_rook, magic));
                assert(magic == sparse_key(MAGIC_SEED, tries as nat));
            }
            return Some(magic);
        }
        proof {
            let (j1, j2) = choose|j1: int, j2: int|
                0 <= j1 < num_permutations && 0 <= j2 < num_permutations && magic_slot(
                    #[trigger] occupancies@[j1],
                    magic,
                    relevant_bits,
                ) == magic_slot(#[trigger] occupancies@[j2], magic, relevant_bits) && attacks@[j1]
                    != attacks@[j2];
            assert(occupancy_bb(j1 as usize, mask) == occupancies@[j1]);
            assert(occupancy_bb(j2 as usize, mask) == occupancies@[j2]);
            assert(!magic_valid(sq, relevant_bits, is_rook, magic));
        }
        tries += 1;
    }
    None
}

} // verus!
