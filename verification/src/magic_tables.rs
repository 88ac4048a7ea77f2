use vstd::prelude::*;
use crate::bitboard::{
    bit_set, group_bits, count_below, lemma_bb_from, lemma_bb_from_bits, lemma_count_below_mono,
    lemma_rank_file, lemma_square_at, rank_of, file_of, square_at, on_board,
};
use crate::constants::{
    bishop_relevant_bits, bishop_relevant_bits_spec, rook_relevant_bits, rook_relevant_bits_spec,
};
use crate::magics::{
    ray_inner, ray_index, ray_square, ray_on_board, ray_reach, steps, direction,
    bishop_mask_square, rook_mask_square, bishop_attack, rook_attack, slider_mask_bb,
    slider_attacks_bb, occupancy_bb, index_bit, permutations, lemma_ray_leaves, lemma_ray_index,
    Magic, magic_slot, magic_valid, bv_slot_bound, bv_perm_bound, mask_bishop_attacks,
    mask_rook_attacks, bishop_attacks_slow, rook_attacks_slow, set_occupancy, get_magic_index,
    magic_accepted, find_magic, MAGIC_SEED, MAGIC_TRIES,
};
use crate::zobrist::sparse_key;

verus! {

broadcast use group_bits;

/// `t` is a relevant rook blocker square for `s`, by rank and file: another square of the
/// same file off the first and last ranks, or of the same rank off the edge files.
pub open spec fn rook_line(s: int, t: int) -> bool {
    ||| file_of(t) == file_of(s) && rank_of(t) != rank_of(s) && 1 <= rank_of(t) <= 6
    ||| rank_of(t) == rank_of(s) && file_of(t) != file_of(s) && 1 <= file_of(t) <= 6
}

/// `t` is a relevant bishop blocker square for `s`, by rank and file: another square of one
/// of its diagonals, off the board's edge.
pub open spec fn bishop_diagonal(s: int, t: int) -> bool {
    &&& rank_of(t) != rank_of(s)
    &&& (rank_of(t) - rank_of(s) == file_of(t) - file_of(s) || rank_of(t) - rank_of(s)
        == file_of(s) - file_of(t))
    &&& 1 <= rank_of(t) <= 6
    &&& 1 <= file_of(t) <= 6
}

proof fn lemma_rook_mask_square(s: int, t: int)
    requires
        0 <= s < 64,
        0 <= t < 64,
    ensures
        rook_mask_square(s, t) <==> rook_line(s, t),
{
    lemma_rank_file(s);
    lemma_rank_file(t);
}

proof fn lemma_bishop_mask_square(s: int, t: int)
    requires
        0 <= s < 64,
        0 <= t < 64,
    ensures
        bishop_mask_square(s, t) <==> bishop_diagonal(s, t),
{
    lemma_rank_file(s);
    lemma_rank_file(t);
}

/// The number of squares below `n` that are relevant rook (or bishop) blockers for `s`.
pub open spec fn relevant_count(s: int, n: int, is_rook: bool) -> nat
    decreases n,
{
    if n <= 0 {
        0
    } else {
        relevant_count(s, n - 1, is_rook) + ind(relevant(s, n - 1, is_rook))
    }
}

/// The indicator of a condition.
pub open spec fn ind(c: bool) -> nat {
    if c {
        1
    } else {
        0
    }
}

/// The number of relevant blocker squares for `s` on rank `r`.
pub open spec fn row_count(s: int, r: int, is_rook: bool) -> nat {
    let rs = rank_of(s);
    let fs = file_of(s);
    if is_rook {
        if r == rs {
            (6 - ind(1 <= fs <= 6)) as nat
        } else {
            ind(1 <= r <= 6)
        }
    } else {
        let d = if r > rs {
            r - rs
        } else {
            rs - r
        };
        if r == rs || !(1 <= r <= 6) {
            0
        } else {
            ind(1 <= fs + d <= 6) + ind(1 <= fs - d <= 6)
        }
    }
}

/// The number of relevant blocker squares for `s` on the ranks below `r`.
pub open spec fn rows_count(s: int, r: int, is_rook: bool) -> nat
    decreases r,
{
    if r <= 0 {
        0
    } else {
        rows_count(s, r - 1, is_rook) + row_count(s, r - 1, is_rook)
    }
}

/// `t` is a relevant rook (or bishop) blocker square for `s`.
pub open spec fn relevant(s: int, t: int, is_rook: bool) -> bool {
    if is_rook {
        rook_line(s, t)
    } else {
        bishop_diagonal(s, t)
    }
}

proof fn lemma_count_step(s: int, n: int, is_rook: bool)
    requires
        0 <= n,
    ensures
        relevant_count(s, n + 1, is_rook) == relevant_count(s, n, is_rook) + ind(
            relevant(s, n, is_rook),
        ),
{
}

proof fn lemma_row_step(s: int, r: int, is_rook: bool)
    requires
        0 <= s < 64,
        0 <= r < 8,
    ensures
        relevant_count(s, 8 * r + 8, is_rook) == relevant_count(s, 8 * r, is_rook) + row_count(
            s,
            r,
            is_rook,
        ),
{
    let b = 8 * r;
    lemma_count_step(s, b + 0, is_rook);
    assert(rank_of(b + 0) == r && file_of(b + 0) == 0);
    lemma_count_step(s, b + 1, is_rook);
    assert(rank_of(b + 1) == r && file_of(b + 1) == 1);
    lemma_count_step(s, b + 2, is_rook);
    assert(rank_of(b + 2) == r && file_of(b + 2) == 2);
    lemma_count_step(s, b + 3, is_rook);
    assert(rank_of(b + 3) == r && file_of(b + 3) == 3);
    lemma_count_step(s, b + 4, is_rook);
    assert(rank_of(b + 4) == r && file_of(b + 4) == 4);
    lemma_count_step(s, b + 5, is_rook);
    assert(rank_of(b + 5) == r && file_of(b + 5) == 5);
    lemma_count_step(s, b + 6, is_rook);
    assert(rank_of(b + 6) == r && file_of(b + 6) == 6);
    lemma_count_step(s, b + 7, is_rook);
    assert(rank_of(b + 7) == r && file_of(b + 7) == 7);
    let c = relevant_count(s, b, is_rook);
    assert(relevant_count(s, b + 8, is_rook) == c + ind(relevant(s, b, is_rook)) + ind(
        relevant(s, b + 1, is_rook),
    ) + ind(relevant(s, b + 2, is_rook)) + ind(relevant(s, b + 3, is_rook)) + ind(
        relevant(s, b + 4, is_rook),
    ) + ind(relevant(s, b + 5, is_rook)) + ind(relevant(s, b + 6, is_rook)) + ind(
        relevant(s, b + 7, is_rook),
    ));
}

proof fn lemma_rows(s: int, r: int, is_rook: bool)
    requires
        0 <= s < 64,
        0 <= r <= 8,
    ensures
        relevant_count(s, 8 * r, is_rook) == rows_count(s, r, is_rook),
    decreases r,
{
    if r > 0 {
        lemma_rows(s, r - 1, is_rook);
        lemma_row_step(s, r - 1, is_rook);
    }
}

proof fn lemma_relevant_count_value(s: int, is_rook: bool)
    requires
        0 <= s < 64,
    ensures
        relevant_count(s, 64, is_rook) == if is_rook {
            rook_relevant_bits_spec(s)
        } else {
            bishop_relevant_bits_spec(s)
        },
{
    lemma_rows(s, 8, is_rook);
    reveal_with_fuel(rows_count, 9);
}

/// A bitboard `m` holds exactly the relevant blocker squares of a rook (or bishop) on `s`.
pub open spec fn is_slider_mask(m: u64, s: int, is_rook: bool) -> bool {
    forall|t: int|
        0 <= t < 64 ==> (#[trigger] bit_set(m, t) <==> if is_rook {
            rook_mask_square(s, t)
        } else {
            bishop_mask_square(s, t)
        })
}

/// A relevant-blocker mask has as many squares as the relevant-bit count of its square.
proof fn lemma_mask_count(s: int, m: u64, is_rook: bool, n: int)
    requires
        0 <= s < 64,
        0 <= n <= 64,
        is_slider_mask(m, s, is_rook),
    ensures
        count_below(m, n) == relevant_count(s, n, is_rook),
    decreases n,
{
    if n > 0 {
        lemma_mask_count(s, m, is_rook, n - 1);
        lemma_rook_mask_square(s, n - 1);
        lemma_bishop_mask_square(s, n - 1);
        assert(bit_set(m, n - 1) == relevant(s, n - 1, is_rook));
    }
}

/// The number of squares of the mask is the square's relevant-bit count.
pub proof fn lemma_mask_size(s: int, m: u64, is_rook: bool)
    requires
        0 <= s < 64,
        is_slider_mask(m, s, is_rook),
    ensures
        count_below(m, 64) == if is_rook {
            rook_relevant_bits_spec(s)
        } else {
            bishop_relevant_bits_spec(s)
        },
{
    lemma_mask_count(s, m, is_rook, 64);
    lemma_relevant_count_value(s, is_rook);
}

proof fn bv_pext_step(x: u64, k: u64)
    by (bit_vector)
    requires
        k < 12,
        x < (1u64 << k),
    ensures
        (x | (1u64 << k)) < (1u64 << (k + 1)),
        x < (1u64 << (k + 1)),
        ((x | (1u64 << k)) >> k) & 1u64 == 1u64,
        (x >> k) & 1u64 == 0u64,
{
}

proof fn bv_pext_low(x: u64, k: u64, c: u64)
    by (bit_vector)
    requires
        c < k,
        k < 12,
    ensures
        ((x | (1u64 << k)) >> c) & 1u64 == (x >> c) & 1u64,
{
}

proof fn bv_index_fits(x: u64, c: u64, b: u64)
    by (bit_vector)
    requires
        x < 4096,
        c < 12,
        b <= 12,
    ensures
        (((x as usize) >> (c as usize)) & 1usize == 1usize) == ((x >> c) & 1u64 == 1u64),
        x < (1u64 << b) ==> (x as usize) < (1usize << (b as usize)),
        (1u64 << b) <= 4096,
{
}

/// The blocker configuration number of `occ` within `mask`: bit `i` of the number is
/// whether the `i`-th lowest square of `mask` below `n` is in `occ`.
pub open spec fn pext_bits(occ: u64, mask: u64, n: int) -> u64
    decreases n,
{
    if n <= 0 {
        0u64
    } else {
        let prev = pext_bits(occ, mask, n - 1);
        if bit_set(mask, n - 1) && bit_set(occ, n - 1) {
            prev | (1u64 << (count_below(mask, n - 1) as u64))
        } else {
            prev
        }
    }
}

proof fn lemma_pext_bits(occ: u64, mask: u64, n: int)
    requires
        0 <= n <= 64,
        count_below(mask, 64) <= 12,
    ensures
        pext_bits(occ, mask, n) < (1u64 << (count_below(mask, n) as u64)),
        forall|u: int|
            0 <= u < n && bit_set(mask, u) ==> (((pext_bits(occ, mask, n) >> (#[trigger] count_below(
                mask,
                u,
            ) as u64)) & 1u64 == 1u64) == bit_set(occ, u)),
    decreases n,
{
    if n == 0 {
        assert(pext_bits(occ, mask, 0) == 0u64);
        assert(0u64 < (1u64 << 0u64)) by (bit_vector);
    } else {
        lemma_pext_bits(occ, mask, n - 1);
        let x = pext_bits(occ, mask, n - 1);
        let k = count_below(mask, n - 1);
        lemma_count_below_mono(mask, n - 1, 64);
        if bit_set(mask, n - 1) {
            bv_pext_step(x, k as u64);
            assert forall|u: int| 0 <= u < n && bit_set(mask, u) implies (((pext_bits(
                occ,
                mask,
                n,
            ) >> (#[trigger] count_below(mask, u) as u64)) & 1u64 == 1u64) == bit_set(occ, u)) by {
                if u < n - 1 {
                    lemma_count_below_mono(mask, u, n - 1);
                    bv_pext_low(x, k as u64, count_below(mask, u) as u64);
                }
            }
        }
    }
}

/// The blocker squares of `occ` inside a mask of at most twelve squares are a blocker
/// configuration of that mask.
pub proof fn lemma_blockers_enumerated(occ: u64, mask: u64, bits: u8)
    requires
        count_below(mask, 64) <= bits <= 12,
    ensures
        exists|i: usize| #![trigger occupancy_bb(i, mask)]
            i < permutations(bits) && occupancy_bb(i, mask) == occ & mask,
{
    lemma_pext_bits(occ, mask, 64);
    let x = pext_bits(occ, mask, 64);
    assert(x < 4096) by {
        let c = count_below(mask, 64) as u64;
        assert(c <= 12 && x < (1u64 << c) ==> x < 4096) by (bit_vector);
    }
    bv_index_fits(x, 0, count_below(mask, 64) as u64);
    bv_index_fits(x, 0, bits as u64);
    lemma_count_below_mono(mask, count_below(mask, 64) as int, bits as int);
    let i = x as usize;
    assert((1u64 << (count_below(mask, 64) as u64)) <= (1u64 << (bits as u64))) by {
        let c = count_below(mask, 64) as u64;
        let b = bits as u64;
        assert(c <= b && b <= 12 ==> (1u64 << c) <= (1u64 << b)) by (bit_vector);
    }
    let p = |t: int| bit_set(mask, t) && index_bit(i, count_below(mask, t) as int);
    assert forall|t: int| 0 <= t < 64 implies (#[trigger] bit_set(occ & mask, t) <==> p(t)) by {
        if bit_set(mask, t) {
            lemma_count_below_mono(mask, t, 64);
            bv_index_fits(x, count_below(mask, t) as u64, bits as u64);
        }
    }
    lemma_bb_from(occ & mask, p);
    assert(occupancy_bb(i, mask) == occ & mask);
}

/// Some square of `mask` below `n` has exactly `p` squares of `mask` below it.
proof fn lemma_nth_square(mask: u64, p: int, n: int)
    requires
        0 <= p < count_below(mask, n),
        n <= 64,
    ensures
        exists|t: int| 0 <= t < n && bit_set(mask, t) && #[trigger] count_below(mask, t) == p,
    decreases n,
{
    if n > 0 {
        if p < count_below(mask, n - 1) {
            lemma_nth_square(mask, p, n - 1);
        } else {
            assert(bit_set(mask, n - 1) && count_below(mask, n - 1) == p);
        }
    }
}

proof fn bv_index_bits_differ(i: usize, j: usize, c: usize, p: usize)
    by (bit_vector)
    requires
        c <= 12,
        i < (1usize << c),
        j < (1usize << c),
        c <= p < 12,
    ensures
        (i >> p) & 1usize == 0usize,
        (j >> p) & 1usize == 0usize,
{
}

proof fn bv_bit_differs(i: usize, j: usize, p: usize)
    by (bit_vector)
    requires
        (i >> p) & 1usize != (j >> p) & 1usize,
    ensures
        ((i >> p) & 1usize == 1usize) != ((j >> p) & 1usize == 1usize),
{
}

proof fn bv_equal_by_bits(i: usize, j: usize)
    by (bit_vector)
    requires
        i < 4096,
        j < 4096,
        i != j,
    ensures
        (i >> 0usize) & 1usize != (j >> 0usize) & 1usize || (i >> 1usize) & 1usize != (j
            >> 1usize) & 1usize || (i >> 2usize) & 1usize != (j >> 2usize) & 1usize || (i
            >> 3usize) & 1usize != (j >> 3usize) & 1usize || (i >> 4usize) & 1usize != (j
            >> 4usize) & 1usize || (i >> 5usize) & 1usize != (j >> 5usize) & 1usize || (i
            >> 6usize) & 1usize != (j >> 6usize) & 1usize || (i >> 7usize) & 1usize != (j
            >> 7usize) & 1usize || (i >> 8usize) & 1usize != (j >> 8usize) & 1usize || (i
            >> 9usize) & 1usize != (j >> 9usize) & 1usize || (i >> 10usize) & 1usize != (j
            >> 10usize) & 1usize || (i >> 11usize) & 1usize != (j >> 11usize) & 1usize,
{
}

/// Distinct configuration numbers of a mask of at most twelve squares, both below the
/// number of its configurations, give distinct blocker configurations: numbering the
/// configurations misses none and repeats none.
pub proof fn lemma_occupancy_injective(i: usize, j: usize, mask: u64)
    requires
        count_below(mask, 64) <= 12,
        i < permutations(count_below(mask, 64) as u8),
        j < permutations(count_below(mask, 64) as u8),
        i != j,
    ensures
        occupancy_bb(i, mask) != occupancy_bb(j, mask),
{
    let c = count_below(mask, 64) as usize;
    assert((1usize << c) <= 4096usize) by (bit_vector)
        requires
            c <= 12,
    ;
    bv_equal_by_bits(i, j);
    let p: usize = choose|p: usize| p < 12 && (i >> p) & 1usize != (j >> p) & 1usize;
    assert(exists|p: usize| p < 12 && (i >> p) & 1usize != (j >> p) & 1usize) by {
        if (i >> 0usize) & 1usize != (j >> 0usize) & 1usize {
            assert(0usize < 12);
        } else if (i >> 1usize) & 1usize != (j >> 1usize) & 1usize {
        } else if (i >> 2usize) & 1usize != (j >> 2usize) & 1usize {
        } else if (i >> 3usize) & 1usize != (j >> 3usize) & 1usize {
        } else if (i >> 4usize) & 1usize != (j >> 4usize) & 1usize {
        } else if (i >> 5usize) & 1usize != (j >> 5usize) & 1usize {
        } else if (i >> 6usize) & 1usize != (j >> 6usize) & 1usize {
        } else if (i >> 7usize) & 1usize != (j >> 7usize) & 1usize {
        } else if (i >> 8usize) & 1usize != (j >> 8usize) & 1usize {
        } else if (i >> 9usize) & 1usize != (j >> 9usize) & 1usize {
        } else if (i >> 10usize) & 1usize != (j >> 10usize) & 1usize {
        } else {
            assert((i >> 11usize) & 1usize != (j >> 11usize) & 1usize);
        }
    }
    if c <= p {
        bv_index_bits_differ(i, j, c, p);
    }
    lemma_nth_square(mask, p as int, 64);
    let t = choose|t: int| 0 <= t < 64 && bit_set(mask, t) && #[trigger] count_below(mask, t) == p;
    let pi = |u: int| bit_set(mask, u) && index_bit(i, count_below(mask, u) as int);
    let pj = |u: int| bit_set(mask, u) && index_bit(j, count_below(mask, u) as int);
    lemma_bb_from_bits(pi);
    lemma_bb_from_bits(pj);
    bv_bit_differs(i, j, p);
    assert(p < usize::BITS);
    assert(index_bit(i, p as int) != index_bit(j, p as int));
    assert(pi(t) != pj(t));
    assert(bit_set(occupancy_bb(i, mask), t) != bit_set(occupancy_bb(j, mask), t));
}

/// `c` is the blocker configuration of `mask` of some number below 2 to the power of the
/// mask's size.
pub open spec fn numbered_configuration(c: u64, mask: u64) -> bool {
    exists|i: usize|
        i < permutations(count_below(mask, 64) as u8) && #[trigger] occupancy_bb(i, mask) == c
}

/// For a mask of at most twelve squares, numbering its blocker configurations is a
/// bijection from the numbers below 2 to the power of its size onto its subsets: each
/// number's configuration lies inside the mask, different numbers give different
/// configurations, and every subset of the mask is the configuration of some number.
pub proof fn lemma_occupancy_bijection(mask: u64)
    requires
        count_below(mask, 64) <= 12,
    ensures
        forall|i: usize, t: int|
            #[trigger] bit_set(occupancy_bb(i, mask), t) ==> bit_set(mask, t),
        forall|i: usize, j: usize|
            i < permutations(count_below(mask, 64) as u8) && j < permutations(
                count_below(mask, 64) as u8,
            ) && i != j ==> #[trigger] occupancy_bb(i, mask) != #[trigger] occupancy_bb(j, mask),
        forall|occ: u64| #[trigger] numbered_configuration(occ & mask, mask),
{
    let n = count_below(mask, 64) as u8;
    assert forall|i: usize, t: int| #[trigger] bit_set(occupancy_bb(i, mask), t) implies bit_set(
        mask,
        t,
    ) by {
        lemma_bb_from_bits(|u: int| bit_set(mask, u) && index_bit(i, count_below(mask, u) as int));
    }
    assert forall|i: usize, j: usize|
        i < permutations(n) && j < permutations(n) && i != j implies #[trigger] occupancy_bb(
        i,
        mask,
    ) != #[trigger] occupancy_bb(j, mask) by {
        lemma_occupancy_injective(i, j, mask);
    }
    assert forall|occ: u64| #[trigger] numbered_configuration(occ & mask, mask) by {
        lemma_blockers_enumerated(occ, mask, n);
        let i = choose|i: usize| #![trigger occupancy_bb(i, mask)]
            i < permutations(n) && occupancy_bb(i, mask) == occ & mask;
        assert(i < permutations(count_below(mask, 64) as u8) && occupancy_bb(i, mask) == occ & mask);
    }
}

/// Every square of the ray from `s` in direction (`dr`, `df`) except its last one on the
/// board is in `m`.
pub open spec fn inner_in(m: u64, s: int, dr: int, df: int) -> bool {
    forall|j: int|
        1 <= j && ray_on_board(s, dr, df, j) && ray_on_board(s, dr, df, j + 1) ==> bit_set(
            m,
            #[trigger] ray_square(s, dr, df, j),
        )
}

proof fn lemma_inner_in_mask(s: int, dr: int, df: int, m: u64, is_rook: bool)
    requires
        0 <= s < 64,
        direction(dr, df),
        is_slider_mask(m, s, is_rook),
        is_rook ==> dr == 0 || df == 0,
        !is_rook ==> dr != 0 && df != 0,
    ensures
        inner_in(m, s, dr, df),
{
    assert forall|j: int|
        1 <= j && ray_on_board(s, dr, df, j) && ray_on_board(s, dr, df, j + 1) implies bit_set(
        m,
        #[trigger] ray_square(s, dr, df, j),
    ) by {
        lemma_ray_index(s, dr, df, j);
        assert(ray_inner(s, dr, df, ray_square(s, dr, df, j)));
    }
}

proof fn lemma_reach_masked(s: int, dr: int, df: int, occ: u64, m: u64, t: int)
    requires
        0 <= s < 64,
        direction(dr, df),
        inner_in(m, s, dr, df),
    ensures
        ray_reach(s, dr, df, occ & m, t) == ray_reach(s, dr, df, occ, t),
{
    let k = ray_index(s, dr, df, t);
    if k >= 1 && ray_on_board(s, dr, df, k) {
        assert forall|j: int| 1 <= j < k implies bit_set(
            occ & m,
            #[trigger] ray_square(s, dr, df, j),
        ) == bit_set(occ, ray_square(s, dr, df, j)) by {
            if !ray_on_board(s, dr, df, j) {
                lemma_ray_leaves(s, dr, df, j, k);
            }
            if !ray_on_board(s, dr, df, j + 1) {
                lemma_ray_leaves(s, dr, df, j + 1, k);
            }
            assert(bit_set(m, ray_square(s, dr, df, j)));
        }
    }
}

/// A slider's attacks depend only on the blockers inside its relevant-blocker mask.
pub proof fn lemma_attacks_masked(s: int, occ: u64, m: u64, is_rook: bool)
    requires
        0 <= s < 64,
        is_slider_mask(m, s, is_rook),
    ensures
        slider_attacks_bb(s, occ & m, is_rook) == slider_attacks_bb(s, occ, is_rook),
{
    if is_rook {
        lemma_inner_in_mask(s, 1, 0, m, true);
        lemma_inner_in_mask(s, 0, 1, m, true);
        lemma_inner_in_mask(s, -1, 0, m, true);
        lemma_inner_in_mask(s, 0, -1, m, true);
    } else {
        lemma_inner_in_mask(s, 1, -1, m, false);
        lemma_inner_in_mask(s, 1, 1, m, false);
        lemma_inner_in_mask(s, -1, 1, m, false);
        lemma_inner_in_mask(s, -1, -1, m, false);
    }
    let p1 = |t: int|
        if is_rook {
            rook_attack(s, occ & m, t)
        } else {
            bishop_attack(s, occ & m, t)
        };
    let p2 = |t: int|
        if is_rook {
            rook_attack(s, occ, t)
        } else {
            bishop_attack(s, occ, t)
        };
    assert forall|t: int| #[trigger] p1(t) == p2(t) by {
        if is_rook {
            lemma_reach_masked(s, 1, 0, occ, m, t);
            lemma_reach_masked(s, 0, 1, occ, m, t);
            lemma_reach_masked(s, -1, 0, occ, m, t);
            lemma_reach_masked(s, 0, -1, occ, m, t);
        } else {
            lemma_reach_masked(s, 1, -1, occ, m, t);
            lemma_reach_masked(s, 1, 1, occ, m, t);
            lemma_reach_masked(s, -1, 1, occ, m, t);
            lemma_reach_masked(s, -1, -1, occ, m, t);
        }
    }
    assert(p1 =~= p2);
}

/// The relevant-bit count of `square` for a rook or a bishop.
pub open spec fn relevant_bits(square: int, is_rook: bool) -> u8 {
    if is_rook {
        rook_relevant_bits_spec(square)
    } else {
        bishop_relevant_bits_spec(square)
    }
}

/// The first slot of `square`'s entries: the slots of all lower squares come first.
pub open spec fn offset_before(square: int, is_rook: bool) -> int
    decreases square,
{
    if square <= 0 {
        0
    } else {
        offset_before(square - 1, is_rook) + permutations(relevant_bits(square - 1, is_rook))
    }
}

/// The lookup entry of `square` built from `magic`: its relevant-blocker mask, the magic
/// number, the shift that keeps as many top bits as the square's relevant-bit count, and
/// the first slot of its attack sets.
pub open spec fn entry_of(square: int, is_rook: bool, magic: u64) -> Magic {
    Magic {
        mask: slider_mask_bb(square, is_rook),
        magic,
        shift: (64 - relevant_bits(square, is_rook)) as u8,
        offset: offset_before(square, is_rook) as usize,
    }
}

/// For every blocker configuration of `e`'s mask, the slot it hashes to holds its attack set.
pub open spec fn entry_filled(table: Seq<u64>, e: Magic, square: int, is_rook: bool) -> bool {
    let bits = relevant_bits(square, is_rook);
    forall|i: usize|
        #![trigger occupancy_bb(i, e.mask)]
        i < permutations(bits) ==> table[e.offset + magic_slot(occupancy_bb(i, e.mask), e.magic, bits)]
            == slider_attacks_bb(square, occupancy_bb(i, e.mask), is_rook)
}

/// `e` is the entry of `square` and its slots lie in `table`; when its magic number is valid
/// they hold the attack sets.
pub open spec fn entry_ok(table: Seq<u64>, e: Magic, square: int, is_rook: bool) -> bool {
    let bits = relevant_bits(square, is_rook);
    &&& e.mask == slider_mask_bb(square, is_rook)
    &&& e.shift == 64 - bits
    &&& e.offset + permutations(bits) <= table.len()
    &&& magic_valid(square, bits, is_rook, e.magic) ==> entry_filled(table, e, square, is_rook)
}

proof fn bv_slot_in_range(x: u64, bits: u8)
    by (bit_vector)
    requires
        1 <= bits <= 12,
    ensures
        (x >> ((64 - bits) as u64)) < 4096,
        ((x >> ((64 - bits) as u64)) as usize) < (1usize << (bits as usize)),
        ((x >> ((64 - bits) as u64)) as usize) as int == (x >> ((64 - bits) as u64)) as int,
        1usize <= (1usize << (bits as usize)) <= 4096usize,
{
}

proof fn lemma_bits_range(square: int, is_rook: bool)
    requires
        0 <= square < 64,
    ensures
        5 <= relevant_bits(square, is_rook) <= 12,
        1 <= permutations(relevant_bits(square, is_rook)) <= 4096,
{
    bv_slot_in_range(0, relevant_bits(square, is_rook));
}

proof fn lemma_offset_bound(square: int, is_rook: bool)
    requires
        0 <= square <= 64,
    ensures
        0 <= offset_before(square, is_rook) <= square * 4096,
    decreases square,
{
    if square > 0 {
        lemma_offset_bound(square - 1, is_rook);
        lemma_bits_range(square - 1, is_rook);
    }
}

proof fn lemma_permutation_values()
    ensures
        permutations(5) == 32,
        permutations(6) == 64,
        permutations(7) == 128,
        permutations(9) == 512,
        permutations(10) == 1024,
        permutations(11) == 2048,
        permutations(12) == 4096,
{
    assert(1usize << 5usize == 32usize) by (bit_vector);
    assert(1usize << 6usize == 64usize) by (bit_vector);
    assert(1usize << 7usize == 128usize) by (bit_vector);
    assert(1usize << 9usize == 512usize) by (bit_vector);
    assert(1usize << 10usize == 1024usize) by (bit_vector);
    assert(1usize << 11usize == 2048usize) by (bit_vector);
    assert(1usize << 12usize == 4096usize) by (bit_vector);
}

/// The bishop entries take 5248 slots in all and the rook entries 102400, so every entry's
/// slots lie inside tables of those sizes.
pub proof fn lemma_table_sizes()
    ensures
        offset_before(64, false) == 5248,
        offset_before(64, true) == 102400,
{
    lemma_permutation_values();
    assert(offset_before(8, false) == 320 && offset_before(8, true) == 20480) by {
        reveal_with_fuel(offset_before, 9);
    }
    assert(offset_before(16, false) == 576 && offset_before(16, true) == 30720) by {
        reveal_with_fuel(offset_before, 9);
    }
    assert(offset_before(24, false) == 1216 && offset_before(24, true) == 40960) by {
        reveal_with_fuel(offset_before, 9);
    }
    assert(offset_before(32, false) == 2624 && offset_before(32, true) == 51200) by {
        reveal_with_fuel(offset_before, 9);
    }
    assert(offset_before(40, false) == 4032 && offset_before(40, true) == 61440) by {
        reveal_with_fuel(offset_before, 9);
    }
    assert(offset_before(48, false) == 4672 && offset_before(48, true) == 71680) by {
        reveal_with_fuel(offset_before, 9);
    }
    assert(offset_before(56, false) == 4928 && offset_before(56, true) == 81920) by {
        reveal_with_fuel(offset_before, 9);
    }
    assert(offset_before(64, false) == 5248 && offset_before(64, true) == 102400) by {
        reveal_with_fuel(offset_before, 9);
    }
}

/// An entry's shift keeps as many top bits of the product as its mask has squares.
pub proof fn lemma_entry_shift(square: int, is_rook: bool, magic: u64)
    requires
        0 <= square < 64,
    ensures
        entry_of(square, is_rook, magic).shift == 64 - count_below(
            entry_of(square, is_rook, magic).mask,
            64,
        ),
{
    let m = slider_mask_bb(square, is_rook);
    lemma_bb_from_bits(
        |t: int|
            if is_rook {
                rook_mask_square(square, t)
            } else {
                bishop_mask_square(square, t)
            },
    );
    assert(is_slider_mask(m, square, is_rook));
    lemma_mask_size(square, m, is_rook);
    lemma_bits_range(square, is_rook);
}

/// Filled slots stay filled when the table only grows past them.
proof fn lemma_filled_prefix(t1: Seq<u64>, t2: Seq<u64>, e: Magic, square: int, is_rook: bool)
    requires
        0 <= square < 64,
        entry_ok(t1, e, square, is_rook),
        t1.len() <= t2.len(),
        forall|j: int| 0 <= j < t1.len() ==> #[trigger] t2[j] == t1[j],
    ensures
        entry_ok(t2, e, square, is_rook),
{
    let bits = relevant_bits(square, is_rook);
    lemma_bits_range(square, is_rook);
    bv_perm_bound(bits as usize);
    if magic_valid(square, bits, is_rook, e.magic) {
        assert forall|i: usize| #![trigger occupancy_bb(i, e.mask)] i < permutations(bits) implies t2[e.offset
            + magic_slot(occupancy_bb(i, e.mask), e.magic, bits)] == slider_attacks_bb(
            square,
            occupancy_bb(i, e.mask),
            is_rook,
        ) by {
            bv_slot_in_range(occupancy_bb(i, e.mask).wrapping_mul(e.magic), bits);
        }
    }
}

/// Appends the attack sets of `square` to `table`: as many slots as the square has blocker
/// configurations, each configuration's attack set stored in the slot its magic product
/// selects (a later configuration overwriting an earlier one in the same slot).
fn fill_entry(table: &mut Vec<u64>, square: u8, magic: u64, is_rook: bool) -> (e: Magic)
    requires
        square < 64,
        old(table)@.len() <= 64 * 4096,
    ensures
        final(table)@.len() == old(table)@.len() + permutations(relevant_bits(square as int, is_rook)),
        forall|j: int| 0 <= j < old(table)@.len() ==> #[trigger] final(table)@[j] == old(table)@[j],
        e.mask == slider_mask_bb(square as int, is_rook),
        e.magic == magic,
        e.shift == 64 - relevant_bits(square as int, is_rook),
        e.offset == old(table)@.len(),
        entry_ok(final(table)@, e, square as int, is_rook),
{
    let mask = if is_rook {
        mask_rook_attacks(square)
    } else {
        mask_bishop_attacks(square)
    };
    let bits = if is_rook {
        rook_relevant_bits(square)
    } else {
        bishop_relevant_bits(square)
    };
    let ghost s = square as int;
    proof {
        lemma_bb_from(
            mask,
            |t: int|
                if is_rook {
                    rook_mask_square(s, t)
                } else {
                    bishop_mask_square(s, t)
                },
        );
        lemma_bits_range(s, is_rook);
        bv_perm_bound(bits as usize);
    }
    let num_permutations: usize = 1usize << (bits as usize);
    let offset = table.len();
    let mut k: usize = 0;
    while k < num_permutations
        invariant
            k <= num_permutations,
            num_permutations <= 4096,
            offset <= 64 * 4096,
            table@.len() == offset + k,
            offset == old(table)@.len(),
            forall|j: int| 0 <= j < offset ==> #[trigger] table@[j] == old(table)@[j],
        decreases num_permutations - k,
    {
        table.push(0);
        k += 1;
    }
    let ghost filled_upto = |n: int|
        forall|i: usize|
            #![trigger occupancy_bb(i, mask)]
            i < n ==> table@[offset + magic_slot(occupancy_bb(i, mask), magic, bits)]
                == slider_attacks_bb(s, occupancy_bb(i, mask), is_rook);
    let mut index: usize = 0;
    while index < num_permutations
        invariant
            index <= num_permutations,
            num_permutations == permutations(bits),
            num_permutations <= 4096,
            5 <= bits <= 12,
            bits == relevant_bits(s, is_rook),
            s == square as int,
            s < 64,
            mask == slider_mask_bb(s, is_rook),
            offset <= 64 * 4096,
            table@.len() == offset + num_permutations,
            offset == old(table)@.len(),
            forall|j: int| 0 <= j < offset ==> #[trigger] table@[j] == old(table)@[j],
            magic_valid(s, bits, is_rook, magic) ==> forall|i: usize|
                #![trigger occupancy_bb(i, mask)]
                i < index ==> table@[offset + magic_slot(occupancy_bb(i, mask), magic, bits)]
                    == slider_attacks_bb(s, occupancy_bb(i, mask), is_rook),
        decreases num_permutations - index,
    {
        let occupancy = set_occupancy(index, mask);
        let attack = if is_rook {
            rook_attacks_slow(square, occupancy)
        } else {
            bishop_attacks_slow(square, occupancy)
        };
        let product = occupancy.wrapping_mul(magic);
        let magic_index = (product >> ((64 - bits) as u64)) as usize;
        proof {
            lemma_bb_from(
                occupancy,
                |t: int| bit_set(mask, t) && index_bit(index, count_below(mask, t) as int),
            );
            lemma_bb_from(
                attack,
                |t: int|
                    if is_rook {
                        rook_attack(s, occupancy, t)
                    } else {
                        bishop_attack(s, occupancy, t)
                    },
            );
            bv_slot_in_range(product, bits);
            assert(magic_index as int == magic_slot(occupancy_bb(index, mask), magic, bits));
        }
        let ghost before = table@;
        table.set(offset + magic_index, attack);
        proof {
            if magic_valid(s, bits, is_rook, magic) {
                assert forall|i: usize| #![trigger occupancy_bb(i, mask)] i < index + 1 implies table@[offset
                    + magic_slot(occupancy_bb(i, mask), magic, bits)] == slider_attacks_bb(
                    s,
                    occupancy_bb(i, mask),
                    is_rook,
                ) by {
                    bv_slot_in_range(occupancy_bb(i, mask).wrapping_mul(magic), bits);
                    if i < index && magic_slot(occupancy_bb(i, mask), magic, bits) == magic_index {
                        assert(slider_attacks_bb(s, occupancy_bb(i, mask), is_rook)
                            == slider_attacks_bb(s, occupancy_bb(index, mask), is_rook));
                    }
                }
            }
        }
        index += 1;
    }
    Magic { mask, magic, shift: 64 - bits, offset }
}

/// Magic-bitboard lookup tables for bishops and rooks: one entry per square, and the attack
/// sets of all squares' blocker configurations, each square's slots following the lower
/// squares' slots.
pub struct MagicTables {
    bishop_magics: Vec<Magic>,
    rook_magics: Vec<Magic>,
    bishop_attacks: Vec<u64>,
    rook_attacks: Vec<u64>,
}

impl MagicTables {
    /// The lookup entry of `square` for a rook or a bishop.
    pub closed spec fn entry(&self, square: int, is_rook: bool) -> Magic {
        if is_rook {
            self.rook_magics@[square]
        } else {
            self.bishop_magics@[square]
        }
    }

    /// The slot that the lookup for `occupancy` on `square` reads.
    pub closed spec fn slot_value(&self, square: int, occupancy: u64, is_rook: bool) -> u64 {
        let e = self.entry(square, is_rook);
        let table = if is_rook {
            self.rook_attacks@
        } else {
            self.bishop_attacks@
        };
        table[e.offset + magic_slot(occupancy & e.mask, e.magic, relevant_bits(square, is_rook))]
    }

    /// Every square has its entry, and every entry with a valid magic number has its slots
    /// filled.
    pub closed spec fn wf(&self) -> bool {
        &&& self.bishop_magics@.len() == 64
        &&& self.rook_magics@.len() == 64
        &&& self.bishop_attacks@.len() <= 64 * 4096
        &&& self.rook_attacks@.len() <= 64 * 4096
        &&& forall|sq: int|
            0 <= sq < 64 ==> entry_ok(self.bishop_attacks@, #[trigger] self.bishop_magics@[sq], sq, false)
        &&& forall|sq: int|
            0 <= sq < 64 ==> entry_ok(self.rook_attacks@, #[trigger] self.rook_magics@[sq], sq, true)
    }

    /// The entry of `square`.
    pub fn get_entry(&self, square: u8, is_rook: bool) -> (e: Magic)
        requires
            self.wf(),
            square < 64,
        ensures
            e == self.entry(square as int, is_rook),
    {
        if is_rook {
            self.rook_magics[square as usize]
        } else {
            self.bishop_magics[square as usize]
        }
    }

    /// Looks up the squares a slider on `square` attacks given the board occupancy: the
    /// slot of its blockers' magic product within the square's slots.
    fn lookup(&self, square: u8, occupancy: u64, is_rook: bool) -> (r: u64)
        requires
            self.wf(),
            square < 64,
        ensures
            r == self.slot_value(square as int, occupancy, is_rook),
            magic_valid(
                square as int,
                relevant_bits(square as int, is_rook),
                is_rook,
                self.entry(square as int, is_rook).magic,
            ) ==> forall|t: int|
                0 <= t < 64 ==> (#[trigger] bit_set(r, t) <==> if is_rook {
                    rook_attack(square as int, occupancy, t)
                } else {
                    bishop_attack(square as int, occupancy, t)
                }),
    {
        let ghost s = square as int;
        let ghost table = if is_rook {
            self.rook_attacks@
        } else {
            self.bishop_attacks@
        };
        let entry = if is_rook {
            &self.rook_magics[square as usize]
        } else {
            &self.bishop_magics[square as usize]
        };
        let ghost bits = relevant_bits(s, is_rook);
        proof {
            assert(entry_ok(table, *entry, s, is_rook));
            lemma_bits_range(s, is_rook);
            bv_slot_in_range((occupancy & entry.mask).wrapping_mul(entry.magic), bits);
        }
        let index = get_magic_index(entry, occupancy);
        proof {
            assert(index as int == magic_slot(occupancy & entry.mask, entry.magic, bits));
        }
        let r = if is_rook {
            self.rook_attacks[entry.offset + index]
        } else {
            self.bishop_attacks[entry.offset + index]
        };
        proof {
            if magic_valid(s, bits, is_rook, entry.magic) {
                let mask = entry.mask;
                let p = |t: int|
                    if is_rook {
                        rook_mask_square(s, t)
                    } else {
                        bishop_mask_square(s, t)
                    };
                lemma_bb_from_bits(p);
                assert(is_slider_mask(mask, s, is_rook));
                lemma_mask_size(s, mask, is_rook);
                lemma_blockers_enumerated(occupancy, mask, bits);
                let i = choose|i: usize|
                    #![trigger occupancy_bb(i, mask)]
                    i < permutations(bits) && occupancy_bb(i, mask) == occupancy & mask;
                assert(entry_filled(table, *entry, s, is_rook));
                assert(table[entry.offset + magic_slot(occupancy_bb(i, mask), entry.magic, bits)]
                    == slider_attacks_bb(s, occupancy_bb(i, mask), is_rook));
                lemma_attacks_masked(s, occupancy, mask, is_rook);
                lemma_bb_from_bits(
                    |t: int|
                        if is_rook {
                            rook_attack(s, occupancy, t)
                        } else {
                            bishop_attack(s, occupancy, t)
                        },
                );
            }
        }
        r
    }

    /// The squares a bishop on `square` attacks given the board occupancy, looked up in the
    /// tables; exact when the square's bishop magic number is valid.
    pub fn get_bishop_attacks(&self, square: u8, occupancy: u64) -> (r: u64)
        requires
            self.wf(),
            square < 64,
        ensures
            r == self.slot_value(square as int, occupancy, false),
            magic_valid(
                square as int,
                bishop_relevant_bits_spec(square as int),
                false,
                self.entry(square as int, false).magic,
            ) ==> forall|t: int|
                0 <= t < 64 ==> (#[trigger] bit_set(r, t) <==> bishop_attack(
                    square as int,
                    occupancy,
                    t,
                )),
    {
        self.lookup(square, occupancy, false)
    }

    /// The squares a rook on `square` attacks given the board occupancy, looked up in the
    /// tables; exact when the square's rook magic number is valid.
    pub fn get_rook_attacks(&self, square: u8, occupancy: u64) -> (r: u64)
        requires
            self.wf(),
            square < 64,
        ensures
            r == self.slot_value(square as int, occupancy, true),
            magic_valid(
                square as int,
                rook_relevant_bits_spec(square as int),
                true,
                self.entry(square as int, true).magic,
            ) ==> forall|t: int|
                0 <= t < 64 ==> (#[trigger] bit_set(r, t) <==> rook_attack(
                    square as int,
                    occupancy,
                    t,
                )),
    {
        self.lookup(square, occupancy, true)
    }

    /// The squares a queen on `square` attacks: the union of the bishop and rook lookups.
    pub fn get_queen_attacks(&self, square: u8, occupancy: u64) -> (r: u64)
        requires
            self.wf(),
            square < 64,
        ensures
            r == self.slot_value(square as int, occupancy, false) | self.slot_value(
                square as int,
                occupancy,
                true,
            ),
            magic_valid(
                square as int,
                bishop_relevant_bits_spec(square as int),
                false,
                self.entry(square as int, false).magic,
            ) && magic_valid(
                square as int,
                rook_relevant_bits_spec(square as int),
                true,
                self.entry(square as int, true).magic,
            ) ==> forall|t: int|
                0 <= t < 64 ==> (#[trigger] bit_set(r, t) <==> (bishop_attack(
                    square as int,
                    occupancy,
                    t,
                ) || rook_attack(square as int, occupancy, t))),
    {
        self.get_bishop_attacks(square, occupancy) | self.get_rook_attacks(square, occupancy)
    }
}

/// Builds the lookup tables from one bishop and one rook magic number per square: for each
/// square in turn, its bishop entry and slots, then its rook entry and slots.
pub fn init_magics(bishop_numbers: &[u64; 64], rook_numbers: &[u64; 64]) -> (tables: MagicTables)
    ensures
        tables.wf(),
        forall|sq: int|
            0 <= sq < 64 ==> #[trigger] tables.entry(sq, false) == entry_of(
                sq,
                false,
                bishop_numbers[sq],
            ) && tables.entry(sq, true) == entry_of(sq, true, rook_numbers[sq]),
{
    let mut bishop_magics: Vec<Magic> = Vec::new();
    let mut rook_magics: Vec<Magic> = Vec::new();
    let mut bishop_attacks: Vec<u64> = Vec::new();
    let mut rook_attacks: Vec<u64> = Vec::new();
    let mut square: u8 = 0;
    while square < 64
        invariant
            square <= 64,
            bishop_magics@.len() == square,
            rook_magics@.len() == square,
            bishop_attacks@.len() == offset_before(square as int, false),
            rook_attacks@.len() == offset_before(square as int, true),
            forall|sq: int|
                0 <= sq < square ==> #[trigger] bishop_magics@[sq] == entry_of(
                    sq,
                    false,
                    bishop_numbers[sq],
                ) && entry_ok(bishop_attacks@, bishop_magics@[sq], sq, false),
            forall|sq: int|
                0 <= sq < square ==> #[trigger] rook_magics@[sq] == entry_of(
                    sq,
                    true,
                    rook_numbers[sq],
                ) && entry_ok(rook_attacks@, rook_magics@[sq], sq, true),
        decreases 64 - square,
    {
        proof {
            lemma_offset_bound(square as int, false);
            lemma_offset_bound(square as int, true);
        }
        let ghost old_bishop = bishop_attacks@;
        let ghost old_rook = rook_attacks@;
        let bishop_entry = fill_entry(&mut bishop_attacks, square, bishop_numbers[square as usize], false);
        let rook_entry = fill_entry(&mut rook_attacks, square, rook_numbers[square as usize], true);
        proof {
            assert forall|sq: int| 0 <= sq < square implies entry_ok(
                bishop_attacks@,
                #[trigger] bishop_magics@[sq],
                sq,
                false,
            ) by {
                lemma_filled_prefix(old_bishop, bishop_attacks@, bishop_magics@[sq], sq, false);
            }
            assert forall|sq: int| 0 <= sq < square implies entry_ok(
                rook_attacks@,
                #[trigger] rook_magics@[sq],
                sq,
                true,
            ) by {
                lemma_filled_prefix(old_rook, rook_attacks@, rook_magics@[sq], sq, true);
            }
        }
        bishop_magics.push(bishop_entry);
        rook_magics.push(rook_entry);
        square += 1;
    }
    proof {
        lemma_offset_bound(64, false);
        lemma_offset_bound(64, true);
    }
    MagicTables { bishop_magics, rook_magics, bishop_attacks, rook_attacks }
}

/// `m` is the first of the sparse random numbers drawn from `MAGIC_SEED` accepted as magic
/// number of `square` (see `find_magic`).
pub open spec fn first_magic(square: int, is_rook: bool, m: u64) -> bool {
    exists|k: nat|
        k < MAGIC_TRIES && m == sparse_key(MAGIC_SEED, k) && magic_accepted(
            square,
            relevant_bits(square, is_rook),
            is_rook,
            m,
        ) && forall|j: nat|
            j < k ==> !magic_accepted(
                square,
                relevant_bits(square, is_rook),
                is_rook,
                #[trigger] sparse_key(MAGIC_SEED, j),
            )
}

/// No candidate of the magic-number search is accepted for `square`.
pub open spec fn no_magic(square: int, is_rook: bool) -> bool {
    forall|j: nat|
        j < MAGIC_TRIES ==> !magic_accepted(
            square,
            relevant_bits(square, is_rook),
            is_rook,
            #[trigger] sparse_key(MAGIC_SEED, j),
        )
}

/// Searches the bishop and rook magic numbers of every square, square by square, and builds
/// the lookup tables from them; none when a search finds no magic number.
pub fn init() -> (r: Option<MagicTables>)
    ensures
        r matches Some(t) ==> t.wf() && forall|sq: int|
            0 <= sq < 64 ==> first_magic(sq, false, #[trigger] t.entry(sq, false).magic)
                && first_magic(sq, true, t.entry(sq, true).magic) && t.entry(sq, false) == entry_of(
                sq,
                false,
                t.entry(sq, false).magic,
            ) && t.entry(sq, true) == entry_of(sq, true, t.entry(sq, true).magic),
        r is None ==> exists|sq: int, is_rook: bool| 0 <= sq < 64 && no_magic(sq, is_rook),
{
    let mut bishop_numbers = [0u64; 64];
    let mut rook_numbers = [0u64; 64];
    let mut square: u8 = 0;
    while square < 64
        invariant
            square <= 64,
            forall|sq: int|
                0 <= sq < square ==> first_magic(sq, false, #[trigger] bishop_numbers[sq])
                    && first_magic(sq, true, rook_numbers[sq]),
        decreases 64 - square,
    {
        proof {
            lemma_bits_range(square as int, false);
            lemma_bits_range(square as int, true);
        }
        let ghost before_b = bishop_numbers@;
        let ghost before_r = rook_numbers@;
        match find_magic(square, bishop_relevant_bits(square), false) {
            Some(m) => {
                bishop_numbers[square as usize] = m;
            },
            None => {
                proof {
                    assert(no_magic(square as int, false));
                }
                return None;
            },
        }
        match find_magic(square, rook_relevant_bits(square), true) {
            Some(m) => {
                rook_numbers[square as usize] = m;
            },
            None => {
                proof {
                    assert(no_magic(square as int, true));
                }
                return None;
            },
        }
        assert(bishop_numbers@ == before_b.update(square as int, bishop_numbers[square as int]));
        assert(rook_numbers@ == before_r.update(square as int, rook_numbers[square as int]));
        assert forall|sq: int| 0 <= sq < square + 1 implies first_magic(
            sq,
            false,
            #[trigger] bishop_numbers[sq],
        ) && first_magic(sq, true, rook_numbers[sq]) by {
            if sq < square {
                assert(bishop_numbers@[sq] == before_b[sq]);
                assert(rook_numbers@[sq] == before_r[sq]);
            }
        }
        square += 1;
    }
    let tables = init_magics(&bishop_numbers, &rook_numbers);
    Some(tables)
}

} // verus!
