use vstd::prelude::*;
use vstd::multiset::Multiset;
use vstd::std_specs::bits::{axiom_u64_trailing_zeros, u64_trailing_zeros};
use crate::board::{Board, piece_at, pieces, square_attacked};
use crate::eval::{evaluate, evaluate_spec, get_piece_value, piece_value};
use crate::make_move::{board_after, move_ok};
use crate::movegen::{MoveGenerator, legal_moves, movegen_ok, lemma_legal_move_ok};
use crate::tt::{TranspositionTable, TTEntry, TTFlag, probe, slot, lemma_slot_in_table};
use crate::types::{Color, Move, MoveList, PieceType, opponent};
use crate::zobrist::{
    ZobristKeys, init_zobrist, zobrist_hash, hash_spec, seeded_keys, lemma_seeded_keys,
};

verus! {

/// Score bound for the search window.
pub const INFINITY: i32 = 50_000;
/// Base score of a checkmate.
pub const MATE: i32 = 49_000;

/// `mv` can be scored: both squares on the board, and a capturing move has a mover.
pub open spec fn scorable(b: Board, mv: Move) -> bool {
    &&& mv.source < 64
    &&& mv.target < 64
    &&& piece_at(b, mv.target as int, opponent(b.active_color)) is Some ==> piece_at(
        b,
        mv.source as int,
        b.active_color,
    ) is Some
}

/// The ordering score of a move: for a capture, ten times the victim's value minus the
/// attacker's value (most valuable victim, least valuable attacker), plus the value of a
/// promotion piece.
pub open spec fn move_score(b: Board, mv: Move) -> int {
    (match piece_at(b, mv.target as int, opponent(b.active_color)) {
        Some(victim) => 10 * piece_value(victim) - piece_value(
            piece_at(b, mv.source as int, b.active_color).unwrap(),
        ),
        None => 0int,
    }) + match mv.promotion {
        Some(promo) => piece_value(promo) as int,
        None => 0int,
    }
}

/// Scores a move for move ordering (see `move_score`).
fn score_move(board: &Board, mv: &Move) -> (r: i32)
    requires
        scorable(*board, *mv),
    ensures
        r == move_score(*board, *mv),
{
    let mut score: i32 = 0;
    let enemy_color = if board.active_color == Color::White {
        Color::Black
    } else {
        Color::White
    };
    if let Some(victim) = board.piece_type_at(mv.target, enemy_color) {
        let attacker = match board.piece_type_at(mv.source, board.active_color) {
            Some(a) => a,
            None => {
                proof {
                    assert(false);
                }
                PieceType::Pawn
            },
        };
        score = score + (10 * get_piece_value(victim) - get_piece_value(attacker));
    }
    if let Some(promo) = mv.promotion {
        score = score + get_piece_value(promo);
    }
    score
}

/// The scores of the moves are non-increasing.
pub open spec fn sorted_by_score(b: Board, ms: Seq<Move>) -> bool {
    forall|i: int, j: int| 0 <= i < j < ms.len() ==> move_score(b, #[trigger] ms[i]) >= move_score(b, #[trigger] ms[j])
}

/// `x` inserted into `s` from the back: it passes every move of strictly lower score.
pub open spec fn insert_by_score(b: Board, s: Seq<Move>, x: Move) -> Seq<Move>
    decreases s.len(),
{
    if s.len() == 0 {
        seq![x]
    } else if move_score(b, s.last()) < move_score(b, x) {
        insert_by_score(b, s.drop_last(), x).push(s.last())
    } else {
        s.push(x)
    }
}

/// The moves of `s` ordered by decreasing `move_score`, moves of equal score in their order
/// in `s` (insertion sort).
pub open spec fn sort_by_score(b: Board, s: Seq<Move>) -> Seq<Move>
    decreases s.len(),
{
    if s.len() == 0 {
        s
    } else {
        insert_by_score(b, sort_by_score(b, s.drop_last()), s.last())
    }
}

/// Inserting past a tail of lower-scored moves keeps that tail in place.
proof fn lemma_insert_tail(b: Board, p: Seq<Move>, x: Move, j: int)
    requires
        0 <= j <= p.len(),
        forall|k: int| j <= k < p.len() ==> move_score(b, #[trigger] p[k]) < move_score(b, x),
    ensures
        insert_by_score(b, p, x) == insert_by_score(b, p.take(j), x) + p.skip(j),
    decreases p.len() - j,
{
    if j == p.len() {
        assert(p.take(j) =~= p);
        assert(p.skip(j) =~= Seq::<Move>::empty());
        assert(insert_by_score(b, p, x) + Seq::<Move>::empty() =~= insert_by_score(b, p, x));
    } else {
        let q = p.drop_last();
        assert(p.last() == p[p.len() - 1]);
        assert forall|k: int| j <= k < q.len() implies move_score(b, #[trigger] q[k]) < move_score(
            b,
            x,
        ) by {
            assert(q[k] == p[k]);
        }
        lemma_insert_tail(b, q, x, j);
        assert(q.take(j) =~= p.take(j));
        assert(q.skip(j).push(p.last()) =~= p.skip(j));
        assert(insert_by_score(b, q.take(j), x) + q.skip(j).push(p.last()) =~= (insert_by_score(
            b,
            q.take(j),
            x,
        ) + q.skip(j)).push(p.last()));
    }
}

/// Sorts the listed moves by decreasing `move_score`, keeping the same moves.
#[verifier::rlimit(40)]
fn sort_moves(board: &Board, list: &mut MoveList)
    requires
        old(list).wf(),
        forall|i: int| 0 <= i < old(list)@.len() ==> scorable(*board, #[trigger] old(list)@[i]),
    ensures
        final(list).wf(),
        final(list).count == old(list).count,
        final(list)@.to_multiset() == old(list)@.to_multiset(),
        sorted_by_score(*board, final(list)@),
        final(list)@ == sort_by_score(*board, old(list)@),
{
    let n = list.count;
    let mut scores: Vec<i32> = Vec::new();
    let mut k: usize = 0;
    while k < n
        invariant
            k <= n,
            n == list.count,
            list.wf(),
            scores@.len() == k,
            forall|i: int| 0 <= i < list@.len() ==> scorable(*board, #[trigger] list@[i]),
            forall|i: int| 0 <= i < k ==> #[trigger] scores@[i] == move_score(*board, list@[i]),
        decreases n - k,
    {
        let mv = list.moves[k];
        assert(mv == list@[k as int]);
        let s = score_move(board, &mv);
        scores.push(s);
        k += 1;
    }
    let ghost unsorted = list@;
    proof {
        if n > 0 {
            assert(unsorted.take(1).drop_last() =~= Seq::<Move>::empty());
            assert(sort_by_score(*board, unsorted.take(1).drop_last()) == Seq::<Move>::empty());
            assert(unsorted.take(1).last() == unsorted[0]);
            assert(insert_by_score(*board, Seq::<Move>::empty(), unsorted[0]) == seq![unsorted[0]]);
            assert(list@.take(1) =~= seq![unsorted[0]]);
        }
    }
    let mut i: usize = 1;
    while i < n
        invariant
            n == list.count,
            list.wf(),
            n > 0 ==> 1 <= i <= n,
            scores@.len() == n,
            list@.to_multiset() == unsorted.to_multiset(),
            forall|m: int| 0 <= m < n ==> #[trigger] scores@[m] == move_score(*board, list@[m]),
            forall|a: int, c: int| 0 <= a < c < i && c < n ==> #[trigger] scores@[a] >= #[trigger] scores@[c],
            unsorted.len() == n,
            n > 0 ==> list@.take(i as int) == sort_by_score(*board, unsorted.take(i as int)),
            forall|k: int| i <= k < n ==> #[trigger] list@[k] == unsorted[k],
        decreases n - i,
    {
        let ghost p = sort_by_score(*board, unsorted.take(i as int));
        let ghost x = unsorted[i as int];
        proof {
            assert(list@.take(i + 1) =~= p.take(i as int) + seq![x] + p.skip(i as int));
        }
        let mut j: usize = i;
        while j > 0 && scores[j - 1] < scores[j]
            invariant
                n == list.count,
                list.wf(),
                0 <= j <= i < n,
                scores@.len() == n,
                list@.to_multiset() == unsorted.to_multiset(),
                forall|m: int| 0 <= m < n ==> #[trigger] scores@[m] == move_score(*board, list@[m]),
                forall|a: int, c: int|
                    0 <= a < c <= i && c != j && a != j ==> #[trigger] scores@[a] >= #[trigger] scores@[c],
                forall|c: int| j < c <= i ==> scores@[j as int] > #[trigger] scores@[c],
                unsorted.len() == n,
                p.len() == i,
                p == sort_by_score(*board, unsorted.take(i as int)),
                x == unsorted[i as int],
                list@.take(i + 1) == p.take(j as int) + seq![x] + p.skip(j as int),
                forall|k: int| j <= k < i ==> move_score(*board, #[trigger] p[k]) < move_score(*board, x),
                forall|k: int| i < k < n ==> #[trigger] list@[k] == unsorted[k],
            decreases j,
        {
            let ghost before = list@;
            proof {
                assert(list@[j as int] == list@.take(i + 1)[j as int]);
                assert(list@.take(i + 1)[j as int] == x);
                assert(list@[j - 1] == list@.take(i + 1)[j - 1]);
                assert(list@.take(i + 1)[j - 1] == p[j - 1]);
            }
            let tmp_move = list.moves[j - 1];
            let cur_move = list.moves[j];
            list.moves[j - 1] = cur_move;
            list.moves[j] = tmp_move;
            let tmp_score = scores[j - 1];
            let cur_score = scores[j];
            scores.set(j - 1, cur_score);
            scores.set(j, tmp_score);
            proof {
                assert(list@ =~= before.update(j - 1, before[j as int]).update(j as int, before[j - 1]));
                let x = before[j as int];
                let y = before[j - 1];
                let s1 = before.update(j - 1, x);
                vstd::seq_lib::to_multiset_update(before, j - 1, x);
                vstd::seq_lib::to_multiset_update(s1, j as int, y);
                broadcast use vstd::multiset::group_multiset_axioms;
                assert(before.contains(y)) by {
                    assert(before[j - 1] == y);
                }
                vstd::seq_lib::to_multiset_contains(before, y);
                assert(s1[j as int] == x);
                assert(list@.to_multiset() =~= before.to_multiset());
                let old_pre = p.take(j as int) + seq![x] + p.skip(j as int);
                let new_pre = p.take(j - 1) + seq![x] + p.skip(j - 1);
                assert forall|k: int| 0 <= k < i + 1 implies #[trigger] list@.take(i + 1)[k]
                    == new_pre[k] by {
                    assert(before[k] == before.take(i + 1)[k]);
                    assert(before.take(i + 1)[k] == old_pre[k]);
                    if k < j - 1 {
                        assert(new_pre[k] == p[k]);
                        assert(old_pre[k] == p[k]);
                    } else if k == j - 1 {
                        assert(new_pre[k] == x);
                        assert(before[j as int] == old_pre[j as int]);
                        assert(old_pre[j as int] == x);
                    } else if k == j {
                        assert(new_pre[k] == p[j - 1]);
                        assert(before[j - 1] == old_pre[j - 1]);
                        assert(old_pre[j - 1] == p[j - 1]);
                    } else {
                        assert(new_pre[k] == p[k - 1]);
                        assert(old_pre[k] == p[k - 1]);
                    }
                }
                assert(list@.take(i + 1) =~= new_pre);
                assert forall|k: int| i < k < n implies #[trigger] list@[k] == unsorted[k] by {
                    assert(list@[k] == before[k]);
                }
            }
            j -= 1;
        }
        assert forall|a: int, c: int| 0 <= a < c <= i implies #[trigger] scores@[a] >= #[trigger] scores@[c] by {
            if c == j && a < j - 1 {
                assert(scores@[a] >= scores@[j - 1]);
            }
        }
        proof {
            assert(list@[j as int] == list@.take(i + 1)[j as int]);
            assert(list@.take(i + 1)[j as int] == x);
            if j > 0 {
                assert(list@[j - 1] == list@.take(i + 1)[j - 1]);
                assert(list@.take(i + 1)[j - 1] == p[j - 1]);
                assert(p.take(j as int).last() == p[j - 1]);
                assert(p.take(j as int).drop_last() =~= p.take(j - 1));
            } else {
                assert(p.take(0) =~= Seq::<Move>::empty());
            }
            lemma_insert_tail(*board, p, x, j as int);
            assert(insert_by_score(*board, p.take(j as int), x) =~= p.take(j as int).push(x));
            assert(unsorted.take(i + 1).drop_last() =~= unsorted.take(i as int));
            assert(unsorted.take(i + 1).last() == x);
            assert(list@.take(i + 1) =~= insert_by_score(*board, p, x));
        }
        i += 1;
    }
    proof {
        if n > 0 {
            assert(list@.take(n as int) =~= list@);
            assert(unsorted.take(n as int) =~= unsorted);
        } else {
            assert(list@ =~= unsorted);
        }
        assert forall|a: int, c: int| 0 <= a < c < list@.len() implies move_score(*board, #[trigger] list@[a]) >= move_score(*board, #[trigger] list@[c]) by {
            assert(scores@[a] >= scores@[c]);
        }
    }
}

/// A move quiescence search follows: a capture or a queen promotion.
pub open spec fn tactical(b: Board, mv: Move) -> bool {
    piece_at(b, mv.target as int, opponent(b.active_color)) is Some || mv.promotion == Some(
        PieceType::Queen,
    )
}

/// `v` cut to the window `lo..=hi`.
pub open spec fn clamp(v: int, lo: int, hi: int) -> int {
    if v <= lo {
        lo
    } else if v >= hi {
        hi
    } else {
        v
    }
}

/// The quiescence value of `b` looking `fuel` plies of tactical moves ahead: the static
/// evaluation, or the value of the best tactical move when that is higher.
#[verifier::opaque]
pub open spec fn quiescence_value(b: Board, fuel: nat) -> int
    decreases fuel, 1nat, 0nat,
{
    let stand = evaluate_spec(b);
    match best_tactical(b, legal_moves(b), fuel) {
        Some(v) => if v > stand {
            v
        } else {
            stand
        },
        None => stand,
    }
}

/// The highest value, for the side to move, of the tactical moves among `ms`: the negated
/// quiescence value of the position after the move; none when no move of `ms` is tactical.
pub open spec fn best_tactical(b: Board, ms: Seq<Move>, fuel: nat) -> Option<int>
    decreases fuel, 0nat, ms.len(),
{
    if ms.len() == 0 || fuel == 0 {
        None
    } else {
        let prev = best_tactical(b, ms.drop_last(), fuel);
        let m = ms.last();
        if tactical(b, m) {
            let v = -quiescence_value(board_after(b, m), (fuel - 1) as nat);
            match prev {
                Some(p) => Some(
                    if v > p {
                        v
                    } else {
                        p
                    },
                ),
                None => Some(v),
            }
        } else {
            prev
        }
    }
}

/// The value of tactical move `m` from `b`.
pub open spec fn tactical_value(b: Board, m: Move, fuel: nat) -> int {
    -quiescence_value(board_after(b, m), (fuel - 1) as nat)
}

/// The largest `val` of the moves of `ms` satisfying `p`; none when no move does.
pub open spec fn best_of(ms: Seq<Move>, p: spec_fn(Move) -> bool, val: spec_fn(Move) -> int) -> Option<
    int,
>
    decreases ms.len(),
{
    if ms.len() == 0 {
        None
    } else {
        let prev = best_of(ms.drop_last(), p, val);
        if p(ms.last()) {
            let v = val(ms.last());
            match prev {
                Some(q) => Some(
                    if v > q {
                        v
                    } else {
                        q
                    },
                ),
                None => Some(v),
            }
        } else {
            prev
        }
    }
}

proof fn lemma_best_of(ms: Seq<Move>, p: spec_fn(Move) -> bool, val: spec_fn(Move) -> int)
    ensures
        best_of(ms, p, val) is None <==> forall|i: int| 0 <= i < ms.len() ==> !p(#[trigger] ms[i]),
        best_of(ms, p, val) matches Some(v) ==> (exists|i: int|
            0 <= i < ms.len() && p(#[trigger] ms[i]) && v == val(ms[i])) && forall|i: int|
            0 <= i < ms.len() && p(#[trigger] ms[i]) ==> val(ms[i]) <= v,
    decreases ms.len(),
{
    if ms.len() > 0 {
        let prev = ms.drop_last();
        let n = ms.len() - 1;
        lemma_best_of(prev, p, val);
        assert(ms[n] == ms.last());
        assert forall|i: int| 0 <= i < n implies #[trigger] ms[i] == prev[i] by {}
        if p(ms.last()) {
            assert(!(forall|i: int| 0 <= i < ms.len() ==> !p(#[trigger] ms[i])));
            let v = best_of(ms, p, val)->Some_0;
            match best_of(prev, p, val) {
                Some(q) => {
                    let k = choose|k: int| 0 <= k < prev.len() && p(#[trigger] prev[k]) && q == val(prev[k]);
                    assert(p(ms[k]) && q == val(ms[k]));
                    if v == val(ms[n]) {
                        assert(p(ms[n]) && v == val(ms[n]));
                    } else {
                        assert(p(ms[k]) && v == val(ms[k]));
                    }
                    assert forall|i: int| 0 <= i < ms.len() && p(#[trigger] ms[i]) implies val(ms[i])
                        <= v by {
                        if i < n {
                            assert(p(prev[i]));
                        }
                    }
                },
                None => {
                    assert(p(ms[n]) && v == val(ms[n]));
                    assert forall|i: int| 0 <= i < ms.len() && p(#[trigger] ms[i]) implies val(ms[i])
                        <= v by {
                        if i < n {
                            assert(p(prev[i]));
                        }
                    }
                },
            }
        } else {
            assert((forall|i: int| 0 <= i < ms.len() ==> !p(#[trigger] ms[i])) <==> (forall|i: int|
                0 <= i < prev.len() ==> !p(#[trigger] prev[i]))) by {
                if forall|i: int| 0 <= i < prev.len() ==> !p(#[trigger] prev[i]) {
                    assert forall|i: int| 0 <= i < ms.len() implies !p(#[trigger] ms[i]) by {
                        if i < n {
                            assert(!p(prev[i]));
                        }
                    }
                }
                if forall|i: int| 0 <= i < ms.len() ==> !p(#[trigger] ms[i]) {
                    assert forall|i: int| 0 <= i < prev.len() implies !p(#[trigger] prev[i]) by {
                        assert(!p(ms[i]));
                    }
                }
            }
            match best_of(prev, p, val) {
                Some(q) => {
                    let k = choose|k: int| 0 <= k < prev.len() && p(#[trigger] prev[k]) && q == val(prev[k]);
                    assert(p(ms[k]) && q == val(ms[k]));
                    assert forall|i: int| 0 <= i < ms.len() && p(#[trigger] ms[i]) implies val(ms[i])
                        <= q by {
                        if i < n {
                            assert(p(prev[i]));
                        }
                    }
                },
                None => {},
            }
        }
    }
}

/// Lists with the same moves have the same best value.
proof fn lemma_best_of_same(
    ms1: Seq<Move>,
    ms2: Seq<Move>,
    p: spec_fn(Move) -> bool,
    val: spec_fn(Move) -> int,
)
    requires
        forall|m: Move| ms1.contains(m) <==> ms2.contains(m),
    ensures
        best_of(ms1, p, val) == best_of(ms2, p, val),
{
    lemma_best_of(ms1, p, val);
    lemma_best_of(ms2, p, val);
    match best_of(ms1, p, val) {
        Some(v1) => {
            let k1 = choose|k: int| 0 <= k < ms1.len() && p(#[trigger] ms1[k]) && v1 == val(ms1[k]);
            assert(ms1.contains(ms1[k1]));
            let j1 = choose|j: int| 0 <= j < ms2.len() && ms2[j] == ms1[k1];
            assert(p(ms2[j1]));
            match best_of(ms2, p, val) {
                Some(v2) => {
                    let k2 = choose|k: int| 0 <= k < ms2.len() && p(#[trigger] ms2[k]) && v2 == val(ms2[k]);
                    assert(ms2.contains(ms2[k2]));
                    let j2 = choose|j: int| 0 <= j < ms1.len() && ms1[j] == ms2[k2];
                    assert(p(ms1[j2]));
                },
                None => {},
            }
        },
        None => {
            match best_of(ms2, p, val) {
                Some(v2) => {
                    let k2 = choose|k: int| 0 <= k < ms2.len() && p(#[trigger] ms2[k]) && v2 == val(ms2[k]);
                    assert(ms2.contains(ms2[k2]));
                    let j2 = choose|j: int| 0 <= j < ms1.len() && ms1[j] == ms2[k2];
                    assert(p(ms1[j2]));
                },
                None => {},
            }
        },
    }
}

/// The best tactical value is the best value of the tactical moves.
proof fn lemma_best_tactical_of(
    b: Board,
    ms: Seq<Move>,
    fuel: nat,
    p: spec_fn(Move) -> bool,
    val: spec_fn(Move) -> int,
)
    requires
        fuel > 0,
        forall|m: Move| #[trigger] p(m) == tactical(b, m),
        forall|m: Move| #[trigger] val(m) == tactical_value(b, m, fuel),
    ensures
        best_tactical(b, ms, fuel) == best_of(ms, p, val),
    decreases ms.len(),
{
    if ms.len() > 0 {
        lemma_best_tactical_of(b, ms.drop_last(), fuel, p, val);
        reveal(quiescence_value);
        let m = ms.last();
        assert(p(m) == tactical(b, m));
        assert(val(m) == tactical_value(b, m, fuel));
        assert(best_tactical(b, ms, fuel) == if tactical(b, m) {
            let v = -quiescence_value(board_after(b, m), (fuel - 1) as nat);
            match best_tactical(b, ms.drop_last(), fuel) {
                Some(q) => Some(
                    if v > q {
                        v
                    } else {
                        q
                    },
                ),
                None => Some(v),
            }
        } else {
            best_tactical(b, ms.drop_last(), fuel)
        });
    }
}

/// Quiescence search from `b` stays within `fuel` plies of tactical moves, and move
/// generation is safe at every node it visits.
#[verifier::opaque]
pub open spec fn quiescence_safe(b: Board, fuel: nat) -> bool
    decreases fuel,
{
    &&& movegen_ok(b)
    &&& forall|i: int|
        0 <= i < legal_moves(b).len() && tactical(b, #[trigger] legal_moves(b)[i]) ==> fuel > 0
            && quiescence_safe(board_after(b, legal_moves(b)[i]), (fuel - 1) as nat)
}

/// A search node `depth` plies from the horizon that finds no legal move has a king, whose
/// square tells checkmate from stalemate.
pub open spec fn mate_test_ok(b: Board, depth: nat) -> bool {
    depth > 0 && legal_moves(b).len() == 0 ==> pieces(b, b.active_color, PieceType::King) != 0
}

/// A search of `depth` plies from `b` is safe: move generation is safe at every node, every
/// node below the root can tell checkmate from stalemate, and every leaf has a finite
/// quiescence search.
#[verifier::opaque]
pub open spec fn search_safe(b: Board, depth: nat) -> bool
    decreases depth,
{
    &&& movegen_ok(b)
    &&& depth == 0 ==> exists|fuel: nat| quiescence_safe(b, fuel)
    &&& depth > 0 ==> forall|i: int|
        0 <= i < legal_moves(b).len() ==> search_safe(
            board_after(b, #[trigger] legal_moves(b)[i]),
            (depth - 1) as nat,
        ) && mate_test_ok(board_after(b, legal_moves(b)[i]), (depth - 1) as nat)
}

/// What a safe quiescence search guarantees at its root and for a tactical child.
proof fn lemma_quiescence_child(b: Board, fuel: nat, m: Move)
    requires
        quiescence_safe(b, fuel),
    ensures
        movegen_ok(b),
        legal_moves(b).contains(m) && tactical(b, m) ==> fuel > 0 && quiescence_safe(
            board_after(b, m),
            (fuel - 1) as nat,
        ),
{
    reveal(quiescence_safe);
    if legal_moves(b).contains(m) && tactical(b, m) {
        let k = choose|k: int| 0 <= k < legal_moves(b).len() && legal_moves(b)[k] == m;
        assert(tactical(b, legal_moves(b)[k]));
    }
}

/// What a safe search guarantees at its root and for a child.
proof fn lemma_search_child(b: Board, depth: nat, m: Move)
    requires
        search_safe(b, depth),
    ensures
        movegen_ok(b),
        depth == 0 ==> exists|fuel: nat| quiescence_safe(b, fuel),
        depth > 0 && legal_moves(b).contains(m) ==> search_safe(board_after(b, m), (depth - 1) as nat)
            && mate_test_ok(board_after(b, m), (depth - 1) as nat),
{
    reveal(search_safe);
    if depth > 0 && legal_moves(b).contains(m) {
        let k = choose|k: int| 0 <= k < legal_moves(b).len() && legal_moves(b)[k] == m;
        assert(search_safe(board_after(b, legal_moves(b)[k]), (depth - 1) as nat));
    }
}

/// A legal move is scorable and applicable.
proof fn lemma_legal_ready(b: Board, m: Move)
    requires
        movegen_ok(b),
        legal_moves(b).contains(m),
    ensures
        move_ok(b, m),
        scorable(b, m),
{
    lemma_legal_move_ok(b, m);
}

/// Generates and orders the legal moves of `board`.
fn ordered_moves<'a>(board: &'a Board) -> (list: MoveList)
    requires
        movegen_ok(*board),
    ensures
        list.wf(),
        list@.to_multiset() == legal_moves(*board).to_multiset(),
        sorted_by_score(*board, list@),
        forall|m: Move| #[trigger] list@.contains(m) ==> legal_moves(*board).contains(m),
        list@ == sort_by_score(*board, legal_moves(*board)),
{
    let mut movegen = MoveGenerator::new(board);
    movegen.generate_moves();
    let mut list = movegen.take_moves();
    proof {
        assert forall|i: int| 0 <= i < list@.len() implies scorable(*board, #[trigger] list@[i]) by {
            lemma_legal_ready(*board, list@[i]);
        }
    }
    sort_moves(board, &mut list);
    proof {
        assert forall|m: Move| #[trigger] list@.contains(m) implies legal_moves(*board).contains(m) by {
            vstd::seq_lib::to_multiset_contains(list@, m);
            vstd::seq_lib::to_multiset_contains(legal_moves(*board), m);
        }
    }
    list
}

/// The larger of two scores.
fn max_score(a: i32, b: i32) -> (r: i32)
    ensures
        r == if a >= b {
            a
        } else {
            b
        },
{
    if a >= b {
        a
    } else {
        b
    }
}

/// The larger of two values.
pub open spec fn max_of(a: int, b: int) -> int {
    if a >= b {
        a
    } else {
        b
    }
}

/// The window's low end after the moves `seen`: the starting low end, raised to the best
/// value among them, which stays below `beta`.
pub open spec fn window_after(
    seen: Seq<Move>,
    p: spec_fn(Move) -> bool,
    val: spec_fn(Move) -> int,
    low: int,
    window: int,
    beta: int,
) -> bool {
    match best_of(seen, p, val) {
        Some(v) => window == max_of(low, v) && v < beta,
        None => window == low,
    }
}

proof fn lemma_window_step(
    seen: Seq<Move>,
    m: Move,
    p: spec_fn(Move) -> bool,
    val: spec_fn(Move) -> int,
    low: int,
    window: int,
    beta: int,
    score: int,
)
    requires
        window_after(seen, p, val, low, window, beta),
        low <= window <= beta,
        p(m) ==> score == clamp(val(m), window, beta) && score < beta,
    ensures
        window_after(
            seen.push(m),
            p,
            val,
            low,
            if p(m) {
                max_of(window, score)
            } else {
                window
            },
            beta,
        ),
{
    assert(seen.push(m).drop_last() =~= seen);
    assert(seen.push(m).last() == m);
}

/// The quiescence value is the static evaluation or the best tactical value, whichever is
/// higher.
proof fn lemma_quiescence_value(b: Board, fuel: nat)
    ensures
        quiescence_value(b, fuel) == match best_tactical(b, legal_moves(b), fuel) {
            Some(v) => max_of(evaluate_spec(b), v),
            None => evaluate_spec(b),
        },
{
    reveal(quiescence_value);
}

/// A reply whose value reaches `beta` puts the quiescence value at or above `beta`.
proof fn lemma_cut(
    legal: Seq<Move>,
    p: spec_fn(Move) -> bool,
    val: spec_fn(Move) -> int,
    mv: Move,
    stand: int,
    alpha: int,
    beta: int,
    qv: int,
)
    requires
        legal.contains(mv),
        p(mv),
        val(mv) >= beta,
        alpha <= beta,
        qv == match best_of(legal, p, val) {
            Some(v) => max_of(stand, v),
            None => stand,
        },
    ensures
        clamp(qv, alpha, beta) == beta,
{
    lemma_best_of(legal, p, val);
    let k = choose|k: int| 0 <= k < legal.len() && legal[k] == mv;
    assert(p(legal[k]));
}

/// After every move, the window's low end is the quiescence value cut to the window.
proof fn lemma_final_window(
    list: Seq<Move>,
    legal: Seq<Move>,
    p: spec_fn(Move) -> bool,
    val: spec_fn(Move) -> int,
    low: int,
    window: int,
    alpha: int,
    beta: int,
    stand: int,
    qv: int,
)
    requires
        window_after(list, p, val, low, window, beta),
        best_of(list, p, val) == best_of(legal, p, val),
        low == max_of(alpha, stand),
        stand < beta,
        alpha <= beta,
        qv == match best_of(legal, p, val) {
            Some(v) => max_of(stand, v),
            None => stand,
        },
    ensures
        window == clamp(qv, alpha, beta),
{
}

/// Quiescence search with a fail-hard window: the static evaluation stands unless a capture
/// or queen promotion (searched recursively) improves it; the result is the quiescence
/// value cut to the window `alpha..=beta`.
#[verifier::rlimit(40)]
fn qsearch(board: &Board, alpha: i32, beta: i32, Ghost(fuel): Ghost<nat>) -> (r: i32)
    requires
        quiescence_safe(*board, fuel),
        -INFINITY <= alpha <= beta <= INFINITY,
    ensures
        r == clamp(quiescence_value(*board, fuel), alpha as int, beta as int),
    decreases fuel,
{
    let mut window_low = alpha;
    proof {
        lemma_quiescence_child(*board, fuel, Move { source: 0, target: 0, promotion: None });
    }
    let static_eval = evaluate(board);
    let ghost legal = legal_moves(*board);
    let ghost p = |m: Move| tactical(*board, m);
    let ghost val = |m: Move| tactical_value(*board, m, fuel);
    let ghost qv = quiescence_value(*board, fuel);
    proof {
        lemma_quiescence_value(*board, fuel);
        if fuel > 0 {
            lemma_best_tactical_of(*board, legal, fuel, p, val);
        } else {
            lemma_best_of(legal, p, val);
            assert forall|k: int| 0 <= k < legal.len() implies !p(#[trigger] legal[k]) by {
                reveal(quiescence_safe);
            }
        }
        assert(qv == match best_of(legal, p, val) {
            Some(v) => max_of(static_eval as int, v),
            None => static_eval as int,
        });
    }
    if static_eval >= beta {
        return beta;
    }
    window_low = max_score(window_low, static_eval);
    let ghost low: int = window_low as int;
    let list = ordered_moves(board);
    proof {
        assert forall|m: Move| list@.contains(m) <==> legal.contains(m) by {
            vstd::seq_lib::to_multiset_contains(list@, m);
            vstd::seq_lib::to_multiset_contains(legal, m);
        }
        lemma_best_of_same(list@, legal, p, val);
        assert(list@.take(0) =~= Seq::<Move>::empty());
    }
    let enemy_color = if board.active_color == Color::White {
        Color::Black
    } else {
        Color::White
    };
    let mut i: usize = 0;
    while i < list.count
        invariant
            list.wf(),
            i <= list.count,
            quiescence_safe(*board, fuel),
            movegen_ok(*board),
            forall|m: Move| #[trigger] list@.contains(m) ==> legal_moves(*board).contains(m),
            enemy_color == opponent(board.active_color),
            low <= window_low <= beta <= INFINITY,
            -INFINITY <= alpha <= low,
            alpha <= beta,
            window_low == beta ==> alpha == beta,
            low == max_of(alpha as int, static_eval as int),
            static_eval < beta,
            legal == legal_moves(*board),
            p == (|m: Move| tactical(*board, m)),
            val == (|m: Move| tactical_value(*board, m, fuel)),
            best_of(list@, p, val) == best_of(legal, p, val),
            qv == quiescence_value(*board, fuel),
            qv == match best_of(legal, p, val) {
                Some(v) => max_of(static_eval as int, v),
                None => static_eval as int,
            },
            window_after(list@.take(i as int), p, val, low, window_low as int, beta as int),
        decreases list.count - i,
    {
        let mv = list.get(i);
        let ghost seen = list@.take(i as int);
        proof {
            assert(list@[i as int] == mv);
            assert(list@.contains(mv));
            lemma_legal_ready(*board, mv);
            assert(list@.take(i + 1) =~= seen.push(mv));
        }
        let is_capture = board.piece_type_at(mv.target, enemy_color).is_some();
        let is_queen_promo = match mv.promotion {
            Some(PieceType::Queen) => true,
            _ => false,
        };
        if !is_capture && !is_queen_promo {
            proof {
                assert(!p(mv));
                lemma_window_step(seen, mv, p, val, low, window_low as int, beta as int, 0);
            }
            i += 1;
            continue;
        }
        proof {
            assert(p(mv));
            lemma_quiescence_child(*board, fuel, mv);
        }
        let mut next_board = *board;
        next_board.make_move(mv);
        let score = -qsearch(&next_board, -beta, -window_low, Ghost((fuel - 1) as nat));
        proof {
            assert(score == clamp(val(mv), window_low as int, beta as int));
        }
        if score >= beta {
            proof {
                if window_low < beta {
                    lemma_cut(legal, p, val, mv, static_eval as int, alpha as int, beta as int, qv);
                }
            }
            return beta;
        }
        proof {
            lemma_window_step(seen, mv, p, val, low, window_low as int, beta as int, score as int);
        }
        window_low = max_score(window_low, score);
        i += 1;
    }
    proof {
        assert(list@.take(list@.len() as int) =~= list@);
        lemma_final_window(
            list@,
            legal,
            p,
            val,
            low,
            window_low as int,
            alpha as int,
            beta as int,
            static_eval as int,
            qv,
        );
    }
    window_low
}

/// What the transposition table answers for `b` at `depth` with window (`alpha`, `beta`).
pub open spec fn tt_answer(
    tt: TranspositionTable,
    b: Board,
    keys: ZobristKeys,
    depth: u8,
    alpha: i32,
    beta: i32,
) -> Option<i32> {
    let key = hash_spec(b, keys);
    probe(tt@[slot(key, tt.slots())], key, depth, alpha, beta)
}

/// The score of a position without legal moves `depth` plies from the horizon: checkmate
/// (worse the sooner it comes) when the king of the side to move is attacked, otherwise
/// stalemate.
pub open spec fn no_move_score(b: Board, depth: u8) -> int {
    let king_square = u64_trailing_zeros(pieces(b, b.active_color, PieceType::King)) as int;
    if square_attacked(b, king_square, opponent(b.active_color)) {
        -MATE + (100 - depth)
    } else {
        0
    }
}

/// The table after storing a search result at the slot of `key` (results outside
/// -48000..=48000 are not stored).
pub open spec fn table_store(
    t: Seq<Option<TTEntry>>,
    key: u64,
    depth: u8,
    score: i32,
    flag: TTFlag,
    best_move: Option<Move>,
) -> Seq<Option<TTEntry>> {
    if -48_000 <= score <= 48_000 {
        t.update(slot(key, t.len() as int), Some(TTEntry { key, depth, score, flag, best_move }))
    } else {
        t
    }
}

/// The bound a search result gives for the window (`alpha`, `beta`).
pub open spec fn bound_flag(found: i32, alpha: i32, beta: i32) -> TTFlag {
    if found <= alpha {
        TTFlag::UpperBound
    } else if found >= beta {
        TTFlag::LowerBound
    } else {
        TTFlag::Exact
    }
}

/// The alpha-beta negamax value of `b` searched `depth` plies deep with window
/// (`alpha`, `beta`) and table `t`, and the table afterwards: a table answer is taken as is;
/// at the horizon the quiescence value cut to the window; without legal moves the checkmate
/// or stalemate score; otherwise the best negated value of the children, searched in move
/// order with the window narrowed as results come in and stopping once it closes, stored
/// in the table with its bound.
pub open spec fn node_value(
    b: Board,
    depth: u8,
    alpha: i32,
    beta: i32,
    t: Seq<Option<TTEntry>>,
    keys: ZobristKeys,
) -> (i32, Seq<Option<TTEntry>>)
    decreases depth, 1nat, 0nat,
{
    let key = hash_spec(b, keys);
    match probe(t[slot(key, t.len() as int)], key, depth, alpha, beta) {
        Some(score) => (score, t),
        None => if depth == 0 {
            (
                clamp(
                    quiescence_value(b, choose|fuel: nat| quiescence_safe(b, fuel)),
                    alpha as int,
                    beta as int,
                ) as i32,
                t,
            )
        } else if legal_moves(b).len() == 0 {
            (no_move_score(b, depth) as i32, t)
        } else {
            let ms = sort_by_score(b, legal_moves(b));
            let st = children_value(b, ms, ms.len() as int, depth, alpha, beta, t, keys, true);
            (st.0, table_store(st.4, key, depth, st.0, bound_flag(st.0, alpha, beta), st.1))
        }
    }
}

/// The move loop of a search node after the first `n` moves of `ms`: the best score so far,
/// the move that first reached it, the window's low end, whether the window has closed
/// (only when `can_cut`), and the table.
pub open spec fn children_value(
    b: Board,
    ms: Seq<Move>,
    n: int,
    depth: u8,
    alpha: i32,
    beta: i32,
    t: Seq<Option<TTEntry>>,
    keys: ZobristKeys,
    can_cut: bool,
) -> (i32, Option<Move>, i32, bool, Seq<Option<TTEntry>>)
    decreases depth, 0nat, n,
{
    if n <= 0 || depth == 0 {
        ((-INFINITY) as i32, None, alpha, false, t)
    } else {
        let prev = children_value(b, ms, n - 1, depth, alpha, beta, t, keys, can_cut);
        if prev.3 {
            prev
        } else {
            let mv = ms[n - 1];
            let child = node_value(
                board_after(b, mv),
                (depth - 1) as u8,
                (-beta) as i32,
                (-prev.2) as i32,
                prev.4,
                keys,
            );
            let score = (-child.0) as i32;
            let found = if score > prev.0 {
                score
            } else {
                prev.0
            };
            let best = if score > prev.0 {
                Some(mv)
            } else {
                prev.1
            };
            let window = if prev.2 >= found {
                prev.2
            } else {
                found
            };
            (found, best, window, can_cut && window >= beta, child.1)
        }
    }
}

/// Once the window has closed, the later moves change nothing.
proof fn lemma_cut_stays(
    b: Board,
    ms: Seq<Move>,
    i: int,
    n: int,
    depth: u8,
    alpha: i32,
    beta: i32,
    t: Seq<Option<TTEntry>>,
    keys: ZobristKeys,
)
    requires
        0 <= i <= n,
        i == n || children_value(b, ms, i, depth, alpha, beta, t, keys, true).3,
    ensures
        children_value(b, ms, n, depth, alpha, beta, t, keys, true) == children_value(
            b,
            ms,
            i,
            depth,
            alpha,
            beta,
            t,
            keys,
            true,
        ),
    decreases n - i,
{
    if i < n {
        lemma_cut_stays(b, ms, i, n - 1, depth, alpha, beta, t, keys);
        if depth > 0 && n - 1 > 0 {
        }
    }
}

/// Negamax alpha-beta search to `depth` plies with a transposition table; leaves are
/// resolved by quiescence search, positions without legal moves score as checkmate (worse
/// the sooner it happens) or stalemate (zero).
fn negamax(
    board: &Board,
    depth: u8,
    alpha: i32,
    beta: i32,
    tt: &mut TranspositionTable,
    keys: &ZobristKeys,
) -> (r: i32)
    requires
        search_safe(*board, depth as nat),
        mate_test_ok(*board, depth as nat),
        old(tt).wf(),
        -INFINITY <= alpha <= beta <= INFINITY,
    ensures
        final(tt).wf(),
        -INFINITY <= r <= INFINITY,
        tt_answer(*old(tt), *board, *keys, depth, alpha, beta) matches Some(s) ==> r == s
            && *final(tt) == *old(tt),
        tt_answer(*old(tt), *board, *keys, depth, alpha, beta) is None && depth == 0 ==> r == clamp(
            quiescence_value(*board, choose|fuel: nat| quiescence_safe(*board, fuel)),
            alpha as int,
            beta as int,
        ) && *final(tt) == *old(tt),
        tt_answer(*old(tt), *board, *keys, depth, alpha, beta) is None && depth > 0
            && legal_moves(*board).len() == 0 ==> r == no_move_score(*board, depth) && *final(tt)
            == *old(tt),
        (r, final(tt)@) == node_value(*board, depth, alpha, beta, old(tt)@, *keys),
    decreases depth,
{
    proof {
        lemma_slot_in_table(*tt, hash_spec(*board, *keys));
    }
    let alpha_orig = alpha;
    let mut window_low = alpha;
    proof {
        lemma_search_child(*board, depth as nat, Move { source: 0, target: 0, promotion: None });
    }
    let key = zobrist_hash(board, keys);
    if let Some(score) = tt.read(key, depth, window_low, beta) {
        return score;
    }
    if depth == 0 {
        let ghost fuel = choose|fuel: nat| quiescence_safe(*board, fuel);
        return qsearch(board, window_low, beta, Ghost(fuel));
    }
    let list = ordered_moves(board);
    if list.count == 0 {
        let (king_bb, enemy_color) = if board.active_color == Color::White {
            (board.white_king, Color::Black)
        } else {
            (board.black_king, Color::White)
        };
        proof {
            axiom_u64_trailing_zeros(king_bb);
            assert(king_bb == pieces(*board, board.active_color, PieceType::King));
        }
        let king_sq = king_bb.trailing_zeros() as u8;
        return if board.is_square_attacked(king_sq, enemy_color) {
            -MATE + (100 - depth as i32)
        } else {
            0
        };
    }
    proof {
        assert(list@.contains(list@[0]));
        assert(legal_moves(*board).contains(list@[0]));
        assert(list@.len() > 0);
    }
    let ghost t0 = tt@;
    let mut max_found = -INFINITY;
    let mut best_move: Option<Move> = None;
    let mut cut = false;
    let mut i: usize = 0;
    while i < list.count && !cut
        invariant
            list.wf(),
            i <= list.count,
            depth > 0,
            search_safe(*board, depth as nat),
            movegen_ok(*board),
            forall|m: Move| #[trigger] list@.contains(m) ==> legal_moves(*board).contains(m),
            tt.wf(),
            -INFINITY <= alpha <= window_low <= INFINITY,
            !cut ==> window_low <= beta,
            -INFINITY <= max_found <= INFINITY,
            beta <= INFINITY,
            list@ == sort_by_score(*board, legal_moves(*board)),
            t0 == old(tt)@,
            (max_found, best_move, window_low, cut, tt@) == children_value(
                *board,
                list@,
                i as int,
                depth,
                alpha,
                beta,
                t0,
                *keys,
                true,
            ),
        decreases list.count - i,
    {
        let mv = list.get(i);
        proof {
            assert(list@[i as int] == mv);
            assert(list@.contains(mv));
            lemma_legal_ready(*board, mv);
            lemma_search_child(*board, depth as nat, mv);
        }
        let mut next_board = *board;
        next_board.make_move(mv);
        let ghost prev = children_value(*board, list@, i as int, depth, alpha, beta, t0, *keys, true);
        let score = -negamax(&next_board, depth - 1, -beta, -window_low, tt, keys);
        proof {
            assert(list@[i as int] == mv);
            assert(children_value(*board, list@, i + 1, depth, alpha, beta, t0, *keys, true).4 == tt@);
        }
        if score > max_found {
            max_found = score;
            best_move = Some(mv);
        }
        window_low = max_score(window_low, max_found);
        if window_low >= beta {
            cut = true;
        }
        i += 1;
    }
    proof {
        lemma_cut_stays(*board, list@, i as int, list@.len() as int, depth, alpha, beta, t0, *keys);
        lemma_slot_in_table(*tt, key);
    }
    let flag = if max_found <= alpha_orig {
        TTFlag::UpperBound
    } else if max_found >= beta {
        TTFlag::LowerBound
    } else {
        TTFlag::Exact
    };
    tt.write(key, depth, max_found, flag, best_move);
    max_found
}

/// The table holds no entry.
pub open spec fn tt_empty(tt: TranspositionTable) -> bool {
    forall|i: int| 0 <= i < tt@.len() ==> #[trigger] tt@[i] is None
}

/// The value of move `m` of `b` at the horizon: the negated quiescence value of the position
/// after it.
pub open spec fn leaf_value(b: Board, m: Move) -> int {
    let c = board_after(b, m);
    -quiescence_value(c, choose|fuel: nat| quiescence_safe(c, fuel))
}

/// The best horizon value among the moves `ms`, cut to -INFINITY..=INFINITY; -INFINITY when
/// there is no move.
pub open spec fn best_leaf_value(b: Board, ms: Seq<Move>) -> int {
    match best_of(ms, |m: Move| true, |m: Move| leaf_value(b, m)) {
        Some(v) => clamp(v, -INFINITY as int, INFINITY as int),
        None => -INFINITY as int,
    }
}

proof fn lemma_root_step(b: Board, seen: Seq<Move>, m: Move, found: int, score: int)
    requires
        found == best_leaf_value(b, seen),
        score == clamp(leaf_value(b, m), found, INFINITY as int),
    ensures
        best_leaf_value(b, seen.push(m)) == if score > found {
            score
        } else {
            found
        },
        score > found ==> score == clamp(leaf_value(b, m), -INFINITY as int, INFINITY as int),
{
    assert(seen.push(m).drop_last() =~= seen);
    assert(seen.push(m).last() == m);
}

/// The negation of a value cut to a window is the negated value cut to the negated window.
proof fn lemma_clamp_neg(v: int, lo: int, hi: int)
    requires
        lo <= hi,
    ensures
        -clamp(v, lo, hi) == clamp(-v, -hi, -lo),
{
}

/// The result of a root search of `b` to `depth` plies with table `t`: every legal move, in
/// move order, searched with the full window narrowed by the best score so far; the best
/// score, the first move reaching it, and the table afterwards.
pub open spec fn root_search(b: Board, depth: u8, t: Seq<Option<TTEntry>>) -> (
    i32,
    Option<Move>,
    i32,
    bool,
    Seq<Option<TTEntry>>,
) {
    let ms = sort_by_score(b, legal_moves(b));
    children_value(b, ms, ms.len() as int, depth, (-INFINITY) as i32, INFINITY, t, seeded_keys(), false)
}

/// Ordering keeps the number of moves.
proof fn lemma_sort_len(b: Board, s: Seq<Move>)
    ensures
        sort_by_score(b, s).len() == s.len(),
    decreases s.len(),
{
    if s.len() > 0 {
        lemma_sort_len(b, s.drop_last());
        lemma_insert_len(b, sort_by_score(b, s.drop_last()), s.last());
    }
}

proof fn lemma_insert_len(b: Board, s: Seq<Move>, x: Move)
    ensures
        insert_by_score(b, s, x).len() == s.len() + 1,
    decreases s.len(),
{
    if s.len() > 0 && move_score(b, s.last()) < move_score(b, x) {
        lemma_insert_len(b, s.drop_last(), x);
    }
}

/// The best score of a move loop never falls below -INFINITY, and a best move has been
/// recorded exactly when it lies above.
proof fn lemma_children_found(
    b: Board,
    ms: Seq<Move>,
    n: int,
    depth: u8,
    alpha: i32,
    beta: i32,
    t: Seq<Option<TTEntry>>,
    keys: ZobristKeys,
    can_cut: bool,
)
    ensures
        ({
            let cv = children_value(b, ms, n, depth, alpha, beta, t, keys, can_cut);
            cv.0 >= -INFINITY && (cv.1 is Some <==> cv.0 > -INFINITY)
        }),
    decreases n,
{
    if n > 0 && depth > 0 {
        lemma_children_found(b, ms, n - 1, depth, alpha, beta, t, keys, can_cut);
    }
}

/// The best score of a move loop only grows as more moves are searched.
proof fn lemma_children_grow(
    b: Board,
    ms: Seq<Move>,
    m: int,
    n: int,
    depth: u8,
    alpha: i32,
    beta: i32,
    t: Seq<Option<TTEntry>>,
    keys: ZobristKeys,
    can_cut: bool,
)
    requires
        m <= n,
    ensures
        children_value(b, ms, n, depth, alpha, beta, t, keys, can_cut).0 >= children_value(
            b,
            ms,
            m,
            depth,
            alpha,
            beta,
            t,
            keys,
            can_cut,
        ).0,
    decreases n - m,
{
    if m < n {
        lemma_children_grow(b, ms, m, n - 1, depth, alpha, beta, t, keys, can_cut);
    }
}

/// Whenever the position has a legal move and the reply search after the first move in
/// move order (full window, the table as given) scores below the top score, the root
/// search returns a move, and its score lies above -INFINITY.
pub proof fn lemma_search_returns_move(b: Board, depth: u8, t: Seq<Option<TTEntry>>)
    requires
        depth >= 1,
        legal_moves(b).len() > 0,
        -INFINITY <= node_value(
            board_after(b, sort_by_score(b, legal_moves(b))[0]),
            (depth - 1) as u8,
            (-INFINITY) as i32,
            INFINITY,
            t,
            seeded_keys(),
        ).0 < INFINITY,
    ensures
        root_search(b, depth, t).1 is Some,
        root_search(b, depth, t).0 > -INFINITY,
{
    let ms = sort_by_score(b, legal_moves(b));
    lemma_sort_len(b, legal_moves(b));
    let ninf = (-INFINITY) as i32;
    lemma_children_grow(b, ms, 1, ms.len() as int, depth, ninf, INFINITY, t, seeded_keys(), false);
    lemma_children_found(b, ms, ms.len() as int, depth, ninf, INFINITY, t, seeded_keys(), false);
    let start = children_value(b, ms, 0, depth, ninf, INFINITY, t, seeded_keys(), false);
    assert(start == (ninf, None::<Move>, ninf, false, t));
    let reply = node_value(board_after(b, ms[0]), (depth - 1) as u8, ninf, INFINITY, t, seeded_keys());
    assert((-start.2) as i32 == INFINITY);
    assert((-INFINITY) as i32 == ninf);
    let first = children_value(b, ms, 1, depth, ninf, INFINITY, t, seeded_keys(), false);
    assert(first.0 == (if (-reply.0) as i32 > ninf { (-reply.0) as i32 } else { ninf }));
    assert(first.0 > -INFINITY);
}

/// Searches `board` to `depth` plies (at least one): each legal move, in move-ordering
/// order, is searched with negamax; returns the first move with the highest score and that
/// score, or no move and -INFINITY when there is no legal move.
#[verifier::rlimit(60)]
pub fn search_position(board: &Board, depth: u8, tt: &mut TranspositionTable) -> (res: (
    Option<Move>,
    i32,
))
    requires
        depth >= 1,
        search_safe(*board, depth as nat),
        old(tt).wf(),
    ensures
        final(tt).wf(),
        res.0 matches Some(m) ==> legal_moves(*board).contains(m),
        legal_moves(*board).len() == 0 ==> res.0 is None && res.1 == -INFINITY,
        res.0 is None ==> res.1 == -INFINITY,
        res.0 is Some <==> res.1 > -INFINITY,
        -INFINITY <= res.1 <= INFINITY,
        depth == 1 && tt_empty(*old(tt)) ==> *final(tt) == *old(tt) && res.1 == best_leaf_value(
            *board,
            legal_moves(*board),
        ) && (res.0 matches Some(m) ==> res.1 == clamp(
            leaf_value(*board, m),
            -INFINITY as int,
            INFINITY as int,
        )),
        ({
            let st = root_search(*board, depth, old(tt)@);
            res.0 == st.1 && res.1 == st.0 && final(tt)@ == st.4
        }),
{
    proof {
        lemma_search_child(*board, depth as nat, Move { source: 0, target: 0, promotion: None });
    }
    let keys = init_zobrist();
    proof {
        lemma_seeded_keys(keys);
    }
    let ghost t0 = tt@;
    let mut best_move: Option<Move> = None;
    let mut max_found = -INFINITY;
    let mut window_low = -INFINITY;
    let beta = INFINITY;
    let list = ordered_moves(board);
    let ghost one_ply = depth == 1 && tt_empty(*old(tt));
    proof {
        vstd::seq_lib::to_multiset_len(list@);
        vstd::seq_lib::to_multiset_len(legal_moves(*board));
        assert forall|m: Move| list@.contains(m) <==> legal_moves(*board).contains(m) by {
            vstd::seq_lib::to_multiset_contains(list@, m);
            vstd::seq_lib::to_multiset_contains(legal_moves(*board), m);
        }
        lemma_best_of_same(
            list@,
            legal_moves(*board),
            |m: Move| true,
            |m: Move| leaf_value(*board, m),
        );
        assert(list@.take(0) =~= Seq::<Move>::empty());
    }
    let mut i: usize = 0;
    while i < list.count
        invariant
            list.wf(),
            i <= list.count,
            depth >= 1,
            search_safe(*board, depth as nat),
            movegen_ok(*board),
            forall|m: Move| #[trigger] list@.contains(m) ==> legal_moves(*board).contains(m),
            tt.wf(),
            -INFINITY <= window_low <= INFINITY,
            -INFINITY <= max_found <= INFINITY,
            window_low == max_found || window_low == -INFINITY,
            list@ == sort_by_score(*board, legal_moves(*board)),
            t0 == old(tt)@,
            keys == seeded_keys(),
            (max_found, best_move, window_low, false, tt@) == children_value(
                *board,
                list@,
                i as int,
                depth,
                (-INFINITY) as i32,
                INFINITY,
                t0,
                keys,
                false,
            ),
            best_move matches Some(m) ==> legal_moves(*board).contains(m),
            best_move is None ==> max_found == -INFINITY,
            beta == INFINITY,
            one_ply == (depth == 1 && tt_empty(*old(tt))),
            one_ply ==> *tt == *old(tt) && window_low == max_found && max_found == best_leaf_value(
                *board,
                list@.take(i as int),
            ) && (best_move matches Some(m) ==> max_found == clamp(
                leaf_value(*board, m),
                -INFINITY as int,
                INFINITY as int,
            )),
        decreases list.count - i,
    {
        let mv = list.get(i);
        proof {
            assert(list@[i as int] == mv);
            assert(list@.contains(mv));
            lemma_legal_ready(*board, mv);
            lemma_search_child(*board, depth as nat, mv);
            assert(list@.take(i + 1) =~= list@.take(i as int).push(mv));
        }
        let mut next_board = *board;
        next_board.make_move(mv);
        let ghost before_tt = *tt;
        proof {
            if one_ply {
                let key = hash_spec(next_board, keys);
                lemma_slot_in_table(*tt, key);
                assert(tt@[slot(key, tt.slots())] is None);
            }
        }
        let score = -negamax(&next_board, depth - 1, -beta, -window_low, tt, &keys);
        proof {
            if one_ply {
                lemma_clamp_neg(
                    quiescence_value(next_board, choose|fuel: nat| quiescence_safe(next_board, fuel)),
                    -INFINITY as int,
                    -window_low as int,
                );
                lemma_root_step(*board, list@.take(i as int), mv, max_found as int, score as int);
            }
        }
        if score > max_found {
            max_found = score;
            best_move = Some(mv);
        }
        window_low = max_score(window_low, max_found);
        i += 1;
    }
    proof {
        assert(list@.take(list@.len() as int) =~= list@);
        lemma_children_found(
            *board,
            list@,
            i as int,
            depth,
            (-INFINITY) as i32,
            INFINITY,
            t0,
            keys,
            false,
        );
    }
    assert(list@.len() == list.count);
    (best_move, max_found)
}

/// The number of leaf positions of the legal move tree of `b` to `depth` plies.
pub open spec fn perft_count(b: Board, depth: nat) -> nat
    decreases depth, legal_moves(b).len() + 1,
{
    if depth == 0 {
        1
    } else {
        perft_sum(b, legal_moves(b), depth)
    }
}

/// The leaf counts below each move of `ms` from `b`, one ply less deep, added up.
pub open spec fn perft_sum(b: Board, ms: Seq<Move>, depth: nat) -> nat
    decreases depth, ms.len(),
{
    if ms.len() == 0 || depth == 0 {
        0
    } else {
        perft_sum(b, ms.drop_last(), depth) + perft_count(
            board_after(b, ms.last()),
            (depth - 1) as nat,
        )
    }
}

proof fn lemma_perft_sum_leaves(b: Board, ms: Seq<Move>)
    ensures
        perft_sum(b, ms, 1) == ms.len(),
    decreases ms.len(),
{
    if ms.len() > 0 {
        lemma_perft_sum_leaves(b, ms.drop_last());
        assert(perft_count(board_after(b, ms.last()), 0) == 1);
    }
}

/// One ply deep, the move tree has as many leaves as the position has legal moves.
pub proof fn lemma_perft_one(b: Board)
    ensures
        perft_count(b, 1) == legal_moves(b).len(),
{
    lemma_perft_sum_leaves(b, legal_moves(b));
}

/// Move generation is safe in every position of the tree above the leaves.
#[verifier::opaque]
pub open spec fn perft_safe(b: Board, depth: nat) -> bool
    decreases depth,
{
    depth > 0 ==> movegen_ok(b) && forall|i: int|
        0 <= i < legal_moves(b).len() ==> perft_safe(
            board_after(b, #[trigger] legal_moves(b)[i]),
            (depth - 1) as nat,
        )
}

proof fn lemma_perft_child(b: Board, depth: nat, m: Move)
    requires
        perft_safe(b, depth),
        depth > 0,
    ensures
        movegen_ok(b),
        legal_moves(b).contains(m) ==> perft_safe(board_after(b, m), (depth - 1) as nat),
{
    reveal(perft_safe);
    if legal_moves(b).contains(m) {
        let k = choose|k: int| 0 <= k < legal_moves(b).len() && legal_moves(b)[k] == m;
        assert(perft_safe(board_after(b, legal_moves(b)[k]), (depth - 1) as nat));
    }
}

proof fn lemma_perft_sum_prefix(b: Board, ms: Seq<Move>, depth: nat, i: int)
    requires
        0 <= i < ms.len(),
        depth > 0,
    ensures
        perft_sum(b, ms.take(i + 1), depth) == perft_sum(b, ms.take(i), depth) + perft_count(
            board_after(b, ms[i]),
            (depth - 1) as nat,
        ),
        perft_sum(b, ms.take(i + 1), depth) <= perft_sum(b, ms, depth),
    decreases ms.len() - i,
{
    assert(ms.take(i + 1).drop_last() =~= ms.take(i));
    if i + 1 < ms.len() {
        lemma_perft_sum_prefix(b, ms, depth, i + 1);
    } else {
        assert(ms.take(i + 1) =~= ms);
    }
}

/// Counts the leaf positions of the legal move tree to `depth` plies (see `perft_count`).
pub fn perft(board: &Board, depth: u8) -> (r: u64)
    requires
        perft_safe(*board, depth as nat),
        perft_count(*board, depth as nat) <= u64::MAX,
    ensures
        r == perft_count(*board, depth as nat),
    decreases depth,
{
    if depth == 0 {
        return 1;
    }
    proof {
        lemma_perft_child(*board, depth as nat, Move { source: 0, target: 0, promotion: None });
    }
    let mut nodes: u64 = 0;
    let mut movegen = MoveGenerator::new(board);
    movegen.generate_moves();
    let list = movegen.take_moves();
    let mut i: usize = 0;
    while i < list.count
        invariant
            list.wf(),
            list@ == legal_moves(*board),
            i <= list.count,
            depth > 0,
            perft_safe(*board, depth as nat),
            movegen_ok(*board),
            perft_count(*board, depth as nat) <= u64::MAX,
            nodes == perft_sum(*board, list@.take(i as int), depth as nat),
        decreases list.count - i,
    {
        let mv = list.get(i);
        proof {
            assert(list@[i as int] == mv);
            assert(list@.contains(mv));
            lemma_legal_move_ok(*board, mv);
            lemma_perft_child(*board, depth as nat, mv);
            lemma_perft_sum_prefix(*board, list@, depth as nat, i as int);
        }
        let mut next_board = *board;
        next_board.make_move(mv);
        nodes = nodes + perft(&next_board, depth - 1);
        i += 1;
    }
    proof {
        assert(list@.take(list@.len() as int) =~= list@);
    }
    nodes
}

proof fn lemma_best_tactical_covers(b: Board, ms: Seq<Move>, fuel: nat, m: Move)
    requires
        fuel > 0,
        ms.contains(m),
        piece_at(b, m.target as int, opponent(b.active_color)) is Some || m.promotion == Some(
            PieceType::Queen,
        ),
    ensures
        best_tactical(b, ms, fuel) matches Some(v) && v >= -quiescence_value(
            board_after(b, m),
            (fuel - 1) as nat,
        ),
    decreases ms.len(),
{
    reveal(quiescence_value);
    let p = ms.drop_last();
    assert(ms.len() > 0);
    assert(tactical(b, m));
    let v = -quiescence_value(board_after(b, m), (fuel - 1) as nat);
    if ms.last() == m {
        assert(best_tactical(b, ms, fuel) == match best_tactical(b, p, fuel) {
            Some(q) => Some(if v > q { v } else { q }),
            None => Some(v),
        });
    } else {
        let j = choose|j: int| 0 <= j < ms.len() && ms[j] == m;
        assert(p[j] == m);
        lemma_best_tactical_covers(b, p, fuel, m);
    }
}

/// Quiescence search never overlooks a capture or a queen promotion: looking at least one
/// ply ahead, the quiescence value of a position is at least the static evaluation and at
/// least the negated quiescence value after each legal move that captures an enemy piece
/// or promotes to a queen.
pub proof fn lemma_quiescence_sees_captures(b: Board, fuel: nat, m: Move)
    requires
        fuel > 0,
        legal_moves(b).contains(m),
        piece_at(b, m.target as int, opponent(b.active_color)) is Some || m.promotion == Some(
            PieceType::Queen,
        ),
    ensures
        quiescence_value(b, fuel) >= evaluate_spec(b),
        quiescence_value(b, fuel) >= -quiescence_value(board_after(b, m), (fuel - 1) as nat),
{
    reveal(quiescence_value);
    lemma_best_tactical_covers(b, legal_moves(b), fuel, m);
}

proof fn lemma_best_tactical_attained(b: Board, ms: Seq<Move>, fuel: nat)
    requires
        best_tactical(b, ms, fuel) is Some,
    ensures
        exists|m: Move|
            #![trigger ms.contains(m)]
            ms.contains(m) && fuel > 0 && (piece_at(b, m.target as int, opponent(b.active_color))
                is Some || m.promotion == Some(PieceType::Queen)) && best_tactical(b, ms, fuel)
                == Some(-quiescence_value(board_after(b, m), (fuel - 1) as nat)),
    decreases ms.len(),
{
    reveal(quiescence_value);
    let p = ms.drop_last();
    let m = ms.last();
    assert(ms.contains(m)) by {
        assert(ms[ms.len() - 1] == m);
    }
    if best_tactical(b, p, fuel) is Some {
        lemma_best_tactical_attained(b, p, fuel);
        let w = choose|w: Move|
            #![trigger p.contains(w)]
            p.contains(w) && fuel > 0 && (piece_at(b, w.target as int, opponent(b.active_color))
                is Some || w.promotion == Some(PieceType::Queen)) && best_tactical(b, p, fuel)
                == Some(-quiescence_value(board_after(b, w), (fuel - 1) as nat));
        let j = choose|j: int| 0 <= j < p.len() && p[j] == w;
        assert(ms[j] == w);
        assert(ms.contains(w));
    }
}

/// The quiescence value is never made up: it is the static evaluation or the negated
/// quiescence value after some legal capture or queen promotion.
pub proof fn lemma_quiescence_attained(b: Board, fuel: nat)
    ensures
        quiescence_value(b, fuel) == evaluate_spec(b) || exists|m: Move|
            #![trigger legal_moves(b).contains(m)]
            legal_moves(b).contains(m) && fuel > 0 && (piece_at(
                b,
                m.target as int,
                opponent(b.active_color),
            ) is Some || m.promotion == Some(PieceType::Queen)) && quiescence_value(b, fuel)
                == -quiescence_value(board_after(b, m), (fuel - 1) as nat),
{
    reveal(quiescence_value);
    if best_tactical(b, legal_moves(b), fuel) is Some {
        lemma_best_tactical_attained(b, legal_moves(b), fuel);
    }
}

} // verus!
