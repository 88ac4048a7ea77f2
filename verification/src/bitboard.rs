use vstd::prelude::*;
use vstd::std_specs::bits::{u64_trailing_zeros, axiom_u64_trailing_zeros};

verus! {

/// Square `sq` (0 = a1, 63 = h8) is set in bitboard `b`.
pub open spec fn bit_set(b: u64, sq: int) -> bool {
    0 <= sq < 64 && (b >> (sq as u64)) & 1u64 == 1u64
}

/// The rank (0-based row) of a square.
pub open spec fn rank_of(sq: int) -> int {
    sq / 8
}

/// The file (0-based column) of a square.
pub open spec fn file_of(sq: int) -> int {
    sq % 8
}

/// The square on `rank` and `file`.
pub open spec fn square_at(rank: int, file: int) -> int {
    rank * 8 + file
}

/// `rank` and `file` lie on the board.
pub open spec fn on_board(rank: int, file: int) -> bool {
    0 <= rank < 8 && 0 <= file < 8
}

/// The square on an on-board `rank` and `file` has that rank and file.
pub proof fn lemma_square_at(rank: int, file: int)
    requires
        on_board(rank, file),
    ensures
        0 <= square_at(rank, file) < 64,
        rank_of(square_at(rank, file)) == rank,
        file_of(square_at(rank, file)) == file,
{
}

/// Every board index is the square of its own rank and file.
pub proof fn lemma_rank_file(sq: int)
    requires
        0 <= sq < 64,
    ensures
        on_board(rank_of(sq), file_of(sq)),
        square_at(rank_of(sq), file_of(sq)) == sq,
{
}

proof fn bv_bit_ops(a: u64, b: u64, i: u64)
    by (bit_vector)
    requires
        i < 64,
    ensures
        ((a | b) >> i) & 1u64 == 1u64 <==> ((a >> i) & 1u64 == 1u64 || (b >> i) & 1u64 == 1u64),
        ((a & b) >> i) & 1u64 == 1u64 <==> ((a >> i) & 1u64 == 1u64 && (b >> i) & 1u64 == 1u64),
        ((a ^ b) >> i) & 1u64 == 1u64 <==> ((a >> i) & 1u64 == 1u64) != ((b >> i) & 1u64
            == 1u64),
        ((!a) >> i) & 1u64 == 1u64 <==> !((a >> i) & 1u64 == 1u64),
{
}

proof fn bv_shifts(a: u64, k: u64, i: u64)
    by (bit_vector)
    requires
        k < 64,
        i < 64,
    ensures
        ((a << k) >> i) & 1u64 == 1u64 <==> (i >= k && ((a >> ((i - k) as u64)) & 1u64
            == 1u64)),
        ((a >> k) >> i) & 1u64 == 1u64 <==> (i + k < 64 && ((a >> ((i + k) as u64)) & 1u64
            == 1u64)),
        ((1u64 >> i) & 1u64 == 1u64) <==> i == 0,
        ((0u64 >> i) & 1u64 == 1u64) == false,
{
}

proof fn bv_test_bit(a: u64, s: u64)
    by (bit_vector)
    requires
        s < 64,
    ensures
        (a & (1u64 << s)) != 0 <==> (a >> s) & 1u64 == 1u64,
{
}

/// Masking with a single square tests that square.
pub broadcast proof fn lemma_test_bit(a: u64, s: u64)
    requires
        s < 64,
    ensures
        #[trigger] (a & (1u64 << s)) != 0 <==> bit_set(a, s as int),
{
    bv_test_bit(a, s);
}

proof fn bv_xor_zero(a: u64, b: u64)
    by (bit_vector)
    ensures
        a ^ b == 0 ==> a == b,
{
}

/// A bit of `a | b` is set iff it is set in `a` or in `b`.
pub broadcast proof fn lemma_bit_or(a: u64, b: u64, i: int)
    ensures
        #[trigger] bit_set(a | b, i) == (bit_set(a, i) || bit_set(b, i)),
{
    if 0 <= i < 64 {
        bv_bit_ops(a, b, i as u64);
    }
}

/// A bit of `a & b` is set iff it is set in both.
pub broadcast proof fn lemma_bit_and(a: u64, b: u64, i: int)
    ensures
        #[trigger] bit_set(a & b, i) == (bit_set(a, i) && bit_set(b, i)),
{
    if 0 <= i < 64 {
        bv_bit_ops(a, b, i as u64);
    }
}

/// A bit of `a ^ b` is set iff it is set in exactly one.
pub broadcast proof fn lemma_bit_xor(a: u64, b: u64, i: int)
    ensures
        #[trigger] bit_set(a ^ b, i) == (bit_set(a, i) != bit_set(b, i)),
{
    if 0 <= i < 64 {
        bv_bit_ops(a, b, i as u64);
    }
}

/// A square is set in `!a` iff it is not set in `a`.
pub broadcast proof fn lemma_bit_not(a: u64, i: int)
    ensures
        #[trigger] bit_set(!a, i) == (0 <= i < 64 && !bit_set(a, i)),
{
    if 0 <= i < 64 {
        bv_bit_ops(a, a, i as u64);
    }
}

/// Shifting left by `k` moves every square up by `k`.
pub broadcast proof fn lemma_bit_shl(a: u64, k: u64, i: int)
    requires
        k < 64,
    ensures
        #[trigger] bit_set(a << k, i) == (0 <= i < 64 && i >= k && bit_set(a, i - k)),
{
    if 0 <= i < 64 {
        bv_shifts(a, k, i as u64);
    }
}

/// Shifting right by `k` moves every square down by `k`.
pub broadcast proof fn lemma_bit_shr(a: u64, k: u64, i: int)
    requires
        k < 64,
    ensures
        #[trigger] bit_set(a >> k, i) == (0 <= i < 64 && i + k < 64 && bit_set(a, i + k)),
{
    if 0 <= i < 64 {
        bv_shifts(a, k, i as u64);
    }
}

/// The bitboard `1` holds square 0 only.
pub broadcast proof fn lemma_bit_one(i: int)
    ensures
        #[trigger] bit_set(1u64, i) == (i == 0),
{
    if 0 <= i < 64 {
        bv_shifts(1u64, 0, i as u64);
    }
}

/// The empty bitboard holds no square.
pub broadcast proof fn lemma_bit_zero(i: int)
    ensures
        !#[trigger] bit_set(0u64, i),
{
    if 0 <= i < 64 {
        bv_shifts(0u64, 0, i as u64);
    }
}

pub broadcast group group_bits {
    lemma_bit_or,
    lemma_bit_and,
    lemma_bit_xor,
    lemma_bit_not,
    lemma_bit_shl,
    lemma_bit_shr,
    lemma_bit_one,
    lemma_bit_zero,
    lemma_test_bit,
}

/// `1 << s` holds exactly square `s`.
pub proof fn lemma_single_bit(s: u64)
    requires
        s < 64,
    ensures
        forall|i: int| #[trigger] bit_set(1u64 << s, i) == (i == s),
{
    broadcast use group_bits;

}

/// Two bitboards with the same squares are equal.
pub proof fn lemma_bits_ext(a: u64, b: u64)
    requires
        forall|i: int| 0 <= i < 64 ==> #[trigger] bit_set(a, i) == bit_set(b, i),
    ensures
        a == b,
{
    let x = a ^ b;
    if x != 0 {
        axiom_u64_trailing_zeros(x);
        let tz = u64_trailing_zeros(x) as int;
        assert(bit_set(x, tz));
        lemma_bit_xor(a, b, tz);
    }
    bv_xor_zero(a, b);
}

/// A bitboard is empty iff it holds no square.
pub proof fn lemma_zero_iff_empty(a: u64)
    ensures
        a == 0 <==> forall|i: int| 0 <= i < 64 ==> !#[trigger] bit_set(a, i),
{
    broadcast use group_bits;

    if forall|i: int| 0 <= i < 64 ==> !#[trigger] bit_set(a, i) {
        lemma_bits_ext(a, 0);
    }
}

/// The bitboard whose set squares are those satisfying `p`.
pub open spec fn bb_from(p: spec_fn(int) -> bool) -> u64 {
    choose|b: u64| #[trigger] holds_exactly(b, p)
}

/// The set squares of `b` are exactly those satisfying `p`.
pub open spec fn holds_exactly(b: u64, p: spec_fn(int) -> bool) -> bool {
    forall|t: int| 0 <= t < 64 ==> (#[trigger] bit_set(b, t) <==> p(t))
}

/// A bitboard whose squares are exactly those satisfying `p` is `bb_from(p)`.
pub proof fn lemma_bb_from(b: u64, p: spec_fn(int) -> bool)
    requires
        forall|t: int| 0 <= t < 64 ==> (#[trigger] bit_set(b, t) <==> p(t)),
    ensures
        bb_from(p) == b,
{
    assert(holds_exactly(b, p));
    let c = bb_from(p);
    assert(holds_exactly(c, p));
    lemma_bits_ext(c, b);
}

/// The bitboard of the squares below `n` satisfying `p`, built square by square.
pub open spec fn bb_build(p: spec_fn(int) -> bool, n: int) -> u64
    decreases n,
{
    if n <= 0 {
        0u64
    } else {
        bb_build(p, n - 1) | if p(n - 1) {
            1u64 << ((n - 1) as u64)
        } else {
            0u64
        }
    }
}

proof fn lemma_bb_build(p: spec_fn(int) -> bool, n: int)
    requires
        0 <= n <= 64,
    ensures
        forall|t: int| 0 <= t < 64 ==> (#[trigger] bit_set(bb_build(p, n), t) <==> (t < n && p(t))),
    decreases n,
{
    broadcast use group_bits;

    if n > 0 {
        lemma_bb_build(p, n - 1);
        lemma_single_bit((n - 1) as u64);
        let prev = bb_build(p, n - 1);
        let add = if p(n - 1) {
            1u64 << ((n - 1) as u64)
        } else {
            0u64
        };
        assert(bb_build(p, n) == prev | add);
        assert forall|t: int| 0 <= t < 64 implies (#[trigger] bit_set(bb_build(p, n), t) <==> (t < n
            && p(t))) by {
            lemma_bit_or(prev, add, t);
            lemma_bit_zero(t);
        }
    }
}

/// `bb_from(p)` holds exactly the squares satisfying `p`.
pub proof fn lemma_bb_from_bits(p: spec_fn(int) -> bool)
    ensures
        forall|t: int| 0 <= t < 64 ==> (#[trigger] bit_set(bb_from(p), t) <==> p(t)),
{
    lemma_bb_build(p, 64);
    lemma_bb_from(bb_build(p, 64), p);
}

/// Counting set squares is monotone, and a set square adds one to every later count.
pub proof fn lemma_count_below_mono(b: u64, u: int, v: int)
    requires
        0 <= u <= v,
    ensures
        count_below(b, u) <= count_below(b, v),
        u < v && bit_set(b, u) ==> count_below(b, u) + 1 <= count_below(b, v),
    decreases v - u,
{
    if u < v {
        lemma_count_below_mono(b, u, v - 1);
        if u == v - 1 {
        }
    }
}

/// The number of set squares below `n`.
pub open spec fn count_below(b: u64, n: int) -> nat
    decreases n,
{
    if n <= 0 {
        0
    } else {
        count_below(b, n - 1) + if bit_set(b, n - 1) {
            1nat
        } else {
            0nat
        }
    }
}

/// The number of set squares of `b`.
pub open spec fn pop_count_spec(b: u64) -> nat {
    count_below(b, 64)
}

proof fn lemma_count_below_le(b: u64, n: int)
    requires
        0 <= n,
    ensures
        count_below(b, n) <= n,
    decreases n,
{
    if n > 0 {
        lemma_count_below_le(b, n - 1);
    }
}

/// Counts the set squares of `b`.
pub fn pop_count(b: u64) -> (r: u32)
    ensures
        r == pop_count_spec(b),
        r <= 64,
{
    let mut count: u32 = 0;
    let mut i: u64 = 0;
    while i < 64
        invariant
            i <= 64,
            count == count_below(b, i as int),
            count <= i,
        decreases 64 - i,
    {
        if (b >> i) & 1 == 1 {
            count = count + 1;
        }
        i = i + 1;
    }
    count
}

/// The squares below `n` satisfying `p`, in increasing order.
pub open spec fn squares_where(p: spec_fn(int) -> bool, n: int) -> Seq<u8>
    decreases n,
{
    if n <= 0 {
        Seq::empty()
    } else if p(n - 1) {
        squares_where(p, n - 1).push((n - 1) as u8)
    } else {
        squares_where(p, n - 1)
    }
}

/// The set squares of `b`, in increasing order.
pub open spec fn squares_spec(b: u64) -> Seq<u8> {
    squares_where(|t: int| bit_set(b, t), 64)
}

/// Square lists of predicates that agree below `n` are equal.
pub proof fn lemma_squares_where_ext(p: spec_fn(int) -> bool, q: spec_fn(int) -> bool, n: int)
    requires
        forall|t: int| 0 <= t < n ==> #[trigger] p(t) == q(t),
    ensures
        squares_where(p, n) == squares_where(q, n),
    decreases n,
{
    if n > 0 {
        lemma_squares_where_ext(p, q, n - 1);
    }
}

/// The list of squares below `n` (at most 64) holds exactly the squares satisfying `p`,
/// each once, in increasing order.
pub proof fn lemma_squares_where(p: spec_fn(int) -> bool, n: int)
    requires
        0 <= n <= 64,
    ensures
        squares_where(p, n).len() <= n,
        forall|k: int|
            0 <= k < squares_where(p, n).len() ==> p(#[trigger] squares_where(p, n)[k] as int)
                && squares_where(p, n)[k] < n,
        forall|j: int, k: int|
            0 <= j < k < squares_where(p, n).len() ==> squares_where(p, n)[j] < squares_where(
                p,
                n,
            )[k],
        forall|s: int| 0 <= s < n && p(s) ==> #[trigger] squares_where(p, n).contains(s as u8),
    decreases n,
{
    if n > 0 {
        lemma_squares_where(p, n - 1);
        let prev = squares_where(p, n - 1);
        if p(n - 1) {
            assert(squares_where(p, n) == prev.push((n - 1) as u8));
            assert forall|s: int| 0 <= s < n && p(s) implies #[trigger] squares_where(
                p,
                n,
            ).contains(s as u8) by {
                if s == n - 1 {
                    assert(squares_where(p, n)[prev.len() as int] == s as u8);
                } else {
                    assert(prev.contains(s as u8));
                    let k = choose|k: int| 0 <= k < prev.len() && prev[k] == s as u8;
                    assert(squares_where(p, n)[k] == s as u8);
                }
            }
        } else {
            assert forall|s: int| 0 <= s < n && p(s) implies #[trigger] squares_where(
                p,
                n,
            ).contains(s as u8) by {
                assert(s != n - 1);
                assert(prev.contains(s as u8));
            }
        }
    }
}

/// Lists the set squares of `b` in increasing order.
pub fn squares_of(b: u64) -> (v: Vec<u8>)
    ensures
        v@ == squares_spec(b),
        v.len() <= 64,
{
    let mut v: Vec<u8> = Vec::new();
    let mut i: u64 = 0;
    while i < 64
        invariant
            i <= 64,
            v@ == squares_where(|t: int| bit_set(b, t), i as int),
            v.len() <= i,
        decreases 64 - i,
    {
        assert(bit_set(b, i as int) == ((b >> i) & 1 == 1));
        if (b >> i) & 1 == 1 {
            v.push(i as u8);
        }
        i = i + 1;
    }
    v
}

/// Index of the lowest set square of `b` (64 when `b` is empty).
pub fn lowest_square(b: u64) -> (r: u32)
    ensures
        r <= 64,
        b == 0 <==> r == 64,
        r < 64 ==> bit_set(b, r as int),
        forall|j: int| 0 <= j < r ==> !#[trigger] bit_set(b, j),
{
    proof {
        axiom_u64_trailing_zeros(b);
    }
    b.trailing_zeros()
}

} // verus!
