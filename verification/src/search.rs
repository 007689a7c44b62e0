//! The search engine: iterative-deepening, time-bounded negascout over the
//! move generator, proved sound against a plain minimax specification.
use vstd::prelude::*;

use crate::bits::{
    bit_set, lemma_count_upto_bounds, lemma_pop_count_zero, lemma_word_upto_bit, lowest_bit,
    pop_count, popcount, valid_cell,
};
use crate::board::{pass_spec, Board};
use crate::mobility::{apply_spec, get_mobility, is_legal, mobility_word, moves_of, put};

verus! {

/// The number of empty cells of the board.
pub open spec fn empties(b: Board) -> int {
    pop_count(!(b.me | b.opp))
}

/// The number of legal moves of the side to move.
pub open spec fn mob_count(b: Board) -> int {
    pop_count(mobility_word(b))
}

/// The side to move has at least one legal move.
pub open spec fn has_move(b: Board) -> bool {
    mobility_word(b) != 0
}

/// The leaf score of a position, from the mover's point of view. Early in
/// the game it is the mobility difference; near the end it is the disc
/// differential stretched so that larger conversions score higher.
pub open spec fn eval_spec(b: Board) -> int {
    let m = pop_count(b.me);
    let o = pop_count(b.opp);
    if m + o < 50 {
        mob_count(b) - mob_count(pass_spec(b))
    } else if m > o {
        64 - 2 * o
    } else if m < o {
        -64 + 2 * m
    } else {
        0
    }
}

/// The plain full-window minimax value of `b` searched `rem` stones deep:
/// leaves score `eval_spec`, a side without a move passes for free, and a
/// position where neither side can move is final.
pub open spec fn negamax(b: Board, rem: int) -> int
    decreases rem, (if has_move(b) { 0int } else { 1int }), 65int,
{
    if rem <= 0 || empties(b) == 0 {
        eval_spec(b)
    } else if !has_move(b) {
        if !has_move(pass_spec(b)) {
            eval_spec(b)
        } else {
            -negamax(pass_spec(b), rem)
        }
    } else {
        best_from(b, rem, 0)
    }
}

/// The best negated child value over the legal moves at cells `i` and above;
/// a sentinel well below any score when no such move exists.
pub open spec fn best_from(b: Board, rem: int, i: int) -> int
    decreases rem, 0int, 64 - i,
{
    if i >= 64 || rem <= 0 {
        -1000
    } else {
        let rest = best_from(b, rem, i + 1);
        if is_legal(b, i) {
            let s = -negamax(apply_spec(b, i), rem - 1);
            if s > rest {
                s
            } else {
                rest
            }
        } else {
            rest
        }
    }
}

/// A side has a move exactly when some cell is legal for it.
pub proof fn lemma_has_move_legal(b: Board)
    ensures
        has_move(b) <==> exists|i: int| is_legal(b, i),
{
    if mobility_word(b) != 0 {
        crate::bits::lemma_word_nonzero(mobility_word(b));
        let i = choose|i: int| bit_set(mobility_word(b), i);
        lemma_word_upto_bit(|i: int| is_legal(b, i), 64, i);
        assert(is_legal(b, i));
    }
    if exists|i: int| is_legal(b, i) {
        let i = choose|i: int| is_legal(b, i);
        assert(crate::mobility::empty_cell(b, i)) by {
            crate::mobility::lemma_legal_empty(b, i);
        }
        lemma_word_upto_bit(|i: int| is_legal(b, i), 64, i);
        assert(bit_set(mobility_word(b), i));
        crate::bits::lemma_zero_word_bits(i);
    }
}

/// A legal cell is a set bit of the legal-move mask, and back.
pub proof fn lemma_mobility_bit(b: Board, i: int)
    requires
        valid_cell(i),
    ensures
        bit_set(mobility_word(b), i) <==> is_legal(b, i),
{
    lemma_word_upto_bit(|i: int| is_legal(b, i), 64, i);
}

/// Leaf scores use full disc counts, so they stay within one board of discs.
pub proof fn lemma_eval_bounds(b: Board)
    ensures
        -64 <= eval_spec(b) <= 64,
{
    lemma_count_upto_bounds(b.me, 64);
    lemma_count_upto_bounds(b.opp, 64);
    lemma_count_upto_bounds(mobility_word(b), 64);
    lemma_count_upto_bounds(mobility_word(pass_spec(b)), 64);
}

/// Minimax values are leaf scores of some position, so they obey the same
/// bounds; and the best-over-moves helper attains its value at a legal move.
pub proof fn lemma_negamax_bounds(b: Board, rem: int)
    ensures
        -64 <= negamax(b, rem) <= 64,
    decreases rem, (if has_move(b) { 0int } else { 1int }), 65int,
{
    if rem <= 0 || empties(b) == 0 {
        lemma_eval_bounds(b);
    } else if !has_move(b) {
        if !has_move(pass_spec(b)) {
            lemma_eval_bounds(b);
        } else {
            lemma_negamax_bounds(pass_spec(b), rem);
        }
    } else {
        lemma_has_move_legal(b);
        let m = choose|i: int| is_legal(b, i);
        assert(crate::mobility::empty_cell(b, m)) by {
            crate::mobility::lemma_legal_empty(b, m);
        }
        lemma_best_from_props(b, rem, 0);
    }
}

/// Properties of `best_from`: every legal move from `i` up is counted, and
/// when one exists the maximum is attained at one of them.
pub proof fn lemma_best_from_props(b: Board, rem: int, i: int)
    requires
        rem >= 1,
        0 <= i,
    ensures
        forall|m: int|
            i <= m < 64 && is_legal(b, m) ==> -negamax(apply_spec(b, m), rem - 1) <= best_from(
                b,
                rem,
                i,
            ),
        (exists|m: int| i <= m < 64 && is_legal(b, m)) ==> (exists|m: int|
            i <= m < 64 && is_legal(b, m) && best_from(b, rem, i) == -negamax(
                apply_spec(b, m),
                rem - 1,
            )),
        !(exists|m: int| i <= m < 64 && is_legal(b, m)) ==> best_from(b, rem, i) == -1000,
        (exists|m: int| i <= m < 64 && is_legal(b, m)) ==> -64 <= best_from(b, rem, i) <= 64,
    decreases rem, 0int, 64 - i,
{
    if i < 64 {
        lemma_best_from_props(b, rem, i + 1);
        if is_legal(b, i) {
            lemma_negamax_bounds(apply_spec(b, i), rem - 1);
        }
    }
}

/// One search outcome: the chosen move, its score, how many nodes were
/// visited, and whether the score is a proven end-of-game value.
#[derive(Debug, Clone)]
pub struct SearchResult {
    pub idx: u8,
    pub score: i8,
    pub searched: u32,
    pub game_end: bool,
}

fn result_of(idx: u8, score: i8, searched: u32, game_end: bool) -> (r: SearchResult)
    ensures
        r.idx == idx,
        r.score == score,
        r.searched == searched,
        r.game_end == game_end,
{
    SearchResult { idx, score, searched, game_end }
}

/// How a score relates a window `(alpha, beta)` to the true value `v`: inside
/// the window it is exact, at or outside a bound it bounds `v` on that side.
pub open spec fn window_sound(v: int, score: int, alpha: int, beta: int) -> bool {
    &&& (alpha < score < beta ==> score == v)
    &&& (score <= alpha ==> v <= score)
    &&& (score >= beta ==> v >= score)
}

/// A search node is a leaf: its stone budget is spent or the board is full.
pub open spec fn at_leaf(b: Board, depth: int, max_depth: int) -> bool {
    depth >= max_depth || empties(b) == 0
}

/// A search node is a true end of game: stones remain but neither side has
/// a move.
pub open spec fn at_stalemate(b: Board, depth: int, max_depth: int) -> bool {
    !at_leaf(b, depth, max_depth) && !has_move(b) && !has_move(pass_spec(b))
}

/// Everything a completed search promises about its result.
pub open spec fn search_sound(
    b: Board,
    depth: int,
    max_depth: int,
    alpha: int,
    beta: int,
    r: SearchResult,
) -> bool {
    let rem = max_depth - depth;
    let v = negamax(b, rem);
    &&& -127 <= r.score <= 127
    &&& r.searched >= 1
    &&& window_sound(v, r.score as int, alpha, beta)
    &&& ((depth < max_depth && empties(b) != 0 && has_move(b)) ==> (r.idx < 64 && is_legal(
        b,
        r.idx as int,
    ) && (alpha < r.score < beta ==> r.score == -negamax(apply_spec(b, r.idx as int), rem - 1))))
    &&& (!(depth < max_depth && empties(b) != 0 && has_move(b)) ==> r.idx == 255)
    &&& ((rem > empties(b) && alpha < r.score < beta) ==> r.game_end)
    &&& (at_leaf(b, depth, max_depth) ==> (r.score as int == eval_spec(b) && r.searched == 1
        && r.game_end == (empties(b) == 0)))
    &&& (at_stalemate(b, depth, max_depth) ==> (r.score as int == eval_spec(b) && r.searched == 1
        && r.game_end))
}

/// The leaf score of a position.
fn evaluate(b: &Board) -> (s: i8)
    requires
        b.inv(),
    ensures
        s as int == eval_spec(*b),
        -64 <= s <= 64,
{
    let m = popcount(b.me);
    let o = popcount(b.opp);
    proof {
        lemma_count_upto_bounds(b.me, 64);
        lemma_count_upto_bounds(b.opp, 64);
        crate::bits::lemma_count_or_disjoint(b.me, b.opp, 64);
        lemma_count_upto_bounds(b.me | b.opp, 64);
    }
    if m + o < 50 {
        let my_mob = popcount(get_mobility(b));
        let opp_mob = popcount(get_mobility(&b.pass()));
        proof {
            lemma_count_upto_bounds(mobility_word(*b), 64);
            lemma_count_upto_bounds(mobility_word(pass_spec(*b)), 64);
        }
        (my_mob as i8) - (opp_mob as i8)
    } else if m > o {
        64 - 2 * (o as i8)
    } else if m < o {
        -64 + 2 * (m as i8)
    } else {
        0
    }
}


#[verifier::external_type_specification]
#[verifier::external_body]
pub struct ExInstant(std::time::Instant);


/// Relies on std::time::Instant::now: the clock reading at the call.
#[verifier::external_body]
fn now_instant() -> std::time::Instant {
    std::time::Instant::now()
}

/// Relies on std::time::Duration::from_millis: a span of that many
/// milliseconds.
#[verifier::external_body]
fn millis_duration(ms: u64) -> std::time::Duration {
    std::time::Duration::from_millis(ms)
}

/// Relies on std::time::Instant::checked_add: the instant moved forward by
/// the span, or nothing when that cannot be represented.
#[verifier::external_body]
fn instant_add(i: &std::time::Instant, d: std::time::Duration) -> Option<std::time::Instant> {
    i.checked_add(d)
}

/// Relies on the ordering of std::time::Instant: whether `a` lies after `b`.
#[verifier::external_body]
fn instant_after(a: &std::time::Instant, b: &std::time::Instant) -> bool {
    a > b
}

/// The deadline `ms` milliseconds from now, where the clock can express it.
fn deadline_in(ms: u64) -> Option<std::time::Instant> {
    instant_add(&now_instant(), millis_duration(ms))
}

/// Whether the deadline has passed; no deadline never expires.
fn is_past(deadline: &Option<std::time::Instant>) -> (r: bool)
    ensures
        deadline.is_none() ==> !r,
{
    match deadline {
        None => false,
        Some(d) => instant_after(&now_instant(), d),
    }
}

/// Whether some pair of the keyed list carries the move `v`.
pub open spec fn carries(keyed: Seq<(u8, u8)>, v: u8) -> bool {
    exists|t2: int| 0 <= t2 < keyed.len() && keyed[t2].0 == v
}

/// Whether `moves` lists every legal move of `b`, each entry legal.
pub open spec fn lists_moves(b: Board, moves: Seq<u8>) -> bool {
    &&& forall|t: int| 0 <= t < moves.len() ==> is_legal(b, #[trigger] (moves[t] as int))
    &&& forall|i: int|
        is_legal(b, i) ==> exists|t: int| 0 <= t < moves.len() && moves[t] as int == i
}

/// The corner cells.
pub const CORNER_MASK: u64 = 0x8100_0000_0000_0081;

/// The cells neither on a corner nor beside one.
pub const INTERIOR_MASK: u64 = 0x3C3C_FFFF_FFFF_3C3C;

/// The cells beside a corner, orthogonally or diagonally.
pub const BESIDE_MASK: u64 = 0x42C3_0000_0000_C342;

/// The static tier of a cell: corners first, interior cells next, the cells
/// beside a corner last.
pub open spec fn tier_of(i: int) -> int {
    if bit_set(CORNER_MASK, i) {
        0
    } else if bit_set(BESIDE_MASK, i) {
        2
    } else {
        1
    }
}

/// The static three-tier move order: every legal move exactly once, tiers
/// ascending, and cells ascending within a tier.
fn naive_ordering(b: &Board, mobility: u64) -> (moves: Vec<u8>)
    requires
        mobility == mobility_word(*b),
    ensures
        lists_moves(*b, moves@),
        moves@.len() == mob_count(*b),
        has_move(*b) ==> moves@.len() >= 1,
        forall|t1: int, t2: int|
            0 <= t1 < t2 < moves@.len() ==> tier_of(moves@[t1] as int) <= tier_of(
                moves@[t2] as int,
            ),
        forall|t1: int, t2: int|
            0 <= t1 < t2 < moves@.len() && tier_of(moves@[t1] as int) == tier_of(
                moves@[t2] as int,
            ) ==> moves@[t1] < moves@[t2],
        forall|t1: int, t2: int| 0 <= t1 < t2 < moves@.len() ==> moves@[t1] != moves@[t2],
{
    let corner: u64 = CORNER_MASK;
    let others: u64 = INTERIOR_MASK;
    let beside: u64 = BESIDE_MASK;
    let mut moves = moves_of(mobility & corner);
    let mut m2 = moves_of(mobility & others);
    let mut m3 = moves_of(mobility & beside);
    let ghost c_seq = moves@;
    let ghost o_seq = m2@;
    let ghost e_seq = m3@;
    moves.append(&mut m2);
    moves.append(&mut m3);
    proof {
        assert(moves@ =~= c_seq + o_seq + e_seq);
        assert((mobility & corner) | (mobility & others) | (mobility & beside) == mobility
            && (mobility & corner) & (mobility & others) == 0 && ((mobility & corner) | (mobility
            & others)) & (mobility & beside) == 0 && corner & others == 0 && corner & beside == 0
            && others & beside == 0) by (bit_vector)
            requires
                corner == 0x8100_0000_0000_0081u64 && others == 0x3C3C_FFFF_FFFF_3C3Cu64 && beside
                    == 0x42C3_0000_0000_C342u64,
        ;
        crate::bits::lemma_count_or_disjoint(mobility & corner, mobility & others, 64);
        crate::bits::lemma_count_or_disjoint(
            (mobility & corner) | (mobility & others),
            mobility & beside,
            64,
        );
        assert(moves@.len() == mob_count(*b));
        assert forall|t: int| 0 <= t < moves@.len() implies is_legal(
            *b,
            #[trigger] (moves@[t] as int),
        ) && tier_of(moves@[t] as int) == (if t < c_seq.len() {
            0int
        } else if t < c_seq.len() + o_seq.len() {
            1int
        } else {
            2int
        }) by {
            let i = moves@[t] as int;
            crate::bits::lemma_bit_and(mobility, corner, i);
            crate::bits::lemma_bit_and(mobility, others, i);
            crate::bits::lemma_bit_and(mobility, beside, i);
            lemma_mobility_bit(*b, i);
            if t < c_seq.len() {
                assert(bit_set(mobility & corner, i));
            } else if t < c_seq.len() + o_seq.len() {
                assert(bit_set(mobility & others, i));
                crate::bits::lemma_bit_disjoint(corner, others, i);
                crate::bits::lemma_bit_disjoint(others, beside, i);
            } else {
                assert(bit_set(mobility & beside, i));
                crate::bits::lemma_bit_disjoint(corner, beside, i);
            }
        }
        assert forall|t1: int, t2: int|
            0 <= t1 < t2 < moves@.len() && tier_of(moves@[t1] as int) == tier_of(
                moves@[t2] as int,
            ) implies moves@[t1] < moves@[t2] by {
            let n1 = c_seq.len() as int;
            let n2 = o_seq.len() as int;
            if t2 < n1 {
                assert(moves@[t1] == c_seq[t1] && moves@[t2] == c_seq[t2]);
            } else if t1 >= n1 && t2 < n1 + n2 {
                assert(moves@[t1] == o_seq[t1 - n1] && moves@[t2] == o_seq[t2 - n1]);
            } else if t1 >= n1 + n2 {
                assert(moves@[t1] == e_seq[t1 - n1 - n2] && moves@[t2] == e_seq[t2 - n1 - n2]);
            }
        }
        assert forall|i: int| is_legal(*b, i) implies exists|t: int|
            0 <= t < moves@.len() && moves@[t] as int == i by {
            crate::mobility::lemma_legal_empty(*b, i);
            lemma_mobility_bit(*b, i);
            assert(bit_set(mobility, i));
            assert(corner | others | beside == 0xFFFF_FFFF_FFFF_FFFFu64) by (bit_vector)
                requires
                    corner == 0x8100_0000_0000_0081u64 && others == 0x3C3C_FFFF_FFFF_3C3Cu64
                        && beside == 0x42C3_0000_0000_C342u64,
            ;
            crate::mobility::lemma_full_mask_bit(i);
            crate::bits::lemma_bit_or(corner, others, i);
            crate::bits::lemma_bit_or(corner | others, beside, i);
            crate::bits::lemma_bit_and(mobility, corner, i);
            crate::bits::lemma_bit_and(mobility, others, i);
            crate::bits::lemma_bit_and(mobility, beside, i);
            if bit_set(mobility & corner, i) {
                let t0 = choose|t0: int| 0 <= t0 < c_seq.len() && c_seq[t0] as int == i;
                assert(moves@[t0] as int == i);
            } else if bit_set(mobility & others, i) {
                let t0 = choose|t0: int| 0 <= t0 < o_seq.len() && o_seq[t0] as int == i;
                assert(moves@[c_seq.len() + t0] as int == i);
            } else {
                let t0 = choose|t0: int| 0 <= t0 < e_seq.len() && e_seq[t0] as int == i;
                assert(moves@[c_seq.len() + o_seq.len() + t0] as int == i);
            }
        }
        if has_move(*b) {
            lemma_has_move_legal(*b);
            let i = choose|i: int| is_legal(*b, i);
            assert(exists|t: int| 0 <= t < moves@.len() && moves@[t] as int == i);
        }
    }
    moves
}

/// The dynamic ordering key of a legal move: how many replies playing it
/// leaves the opponent.
pub open spec fn move_key(b: Board, mv: u8) -> int {
    pop_count(mobility_word(apply_spec(b, mv as int)))
}

/// List the legal moves and search one stone ahead for each, keying each
/// move by how many replies it leaves the opponent; moves that restrict the
/// opponent most come first, and moves with equal keys stay in ascending
/// cell order.
fn fastest_first_ordering(b: &Board, mobility: u64) -> (moves: Vec<u8>)
    requires
        b.inv(),
        mobility == mobility_word(*b),
    ensures
        lists_moves(*b, moves@),
        moves@.len() == mob_count(*b),
        has_move(*b) ==> moves@.len() >= 1,
        forall|t1: int, t2: int|
            0 <= t1 < t2 < moves@.len() ==> move_key(*b, moves@[t1]) <= move_key(*b, moves@[t2]),
        forall|t1: int, t2: int|
            0 <= t1 < t2 < moves@.len() && move_key(*b, moves@[t1]) == move_key(*b, moves@[t2])
                ==> moves@[t1] < moves@[t2],
        forall|t1: int, t2: int| 0 <= t1 < t2 < moves@.len() ==> moves@[t1] != moves@[t2],
{
    let base = moves_of(mobility);
    let mut keyed: Vec<(u8, u8)> = Vec::new();
    let mut t: usize = 0;
    proof {
        assert forall|i: int| 0 <= i < base@.len() implies is_legal(
            *b,
            #[trigger] (base@[i] as int),
        ) by {
            lemma_mobility_bit(*b, base@[i] as int);
        }
    }
    while t < base.len()
        invariant
            b.inv(),
            mobility == mobility_word(*b),
            t <= base@.len(),
            keyed@.len() == t,
            forall|i: int| 0 <= i < base@.len() ==> is_legal(*b, #[trigger] (base@[i] as int)),
            forall|i: int| 0 <= i < t ==> keyed@[i].0 == base@[i],
            forall|i: int|
                0 <= i < t ==> (#[trigger] keyed@[i].1) as int == move_key(*b, keyed@[i].0),
        decreases base@.len() - t,
    {
        let mv = base[t];
        let nb = put(b, mv);
        let key = popcount(get_mobility(&nb));
        proof {
            lemma_count_upto_bounds(mobility_word(nb), 64);
        }
        keyed.push((mv, key as u8));
        t = t + 1;
    }
    // Insertion sort on the keys, moving whole pairs.
    let ghost base_set = base@;
    proof {
        assert forall|i: int| 0 <= i < base_set.len() implies #[trigger] carries(
            keyed@,
            base_set[i],
        ) by {
            assert(keyed@[i].0 == base_set[i]);
        }
        assert forall|i: int| 0 <= i < keyed@.len() implies is_legal(
            *b,
            #[trigger] (keyed@[i].0 as int),
        ) by {
            assert(keyed@[i].0 == base_set[i]);
            assert(is_legal(*b, base_set[i] as int));
        }
        assert forall|t1: int, t2: int|
            0 <= t1 < t2 < keyed@.len() implies keyed@[t1].0 < keyed@[t2].0 by {
            assert(keyed@[t1].0 == base_set[t1] && keyed@[t2].0 == base_set[t2]);
        }
    }
    let mut s: usize = 1;
    while s < keyed.len()
        invariant
            keyed@.len() == base_set.len(),
            forall|i: int|
                0 <= i < keyed@.len() ==> is_legal(*b, #[trigger] (keyed@[i].0 as int)),
            forall|i: int| 0 <= i < base_set.len() ==> #[trigger] carries(keyed@, base_set[i]),
            forall|i: int|
                0 <= i < keyed@.len() ==> (#[trigger] keyed@[i].1) as int == move_key(
                    *b,
                    keyed@[i].0,
                ),
            forall|t1: int, t2: int| 0 <= t1 < t2 < s ==> keyed@[t1].1 <= keyed@[t2].1,
            forall|t1: int, t2: int|
                0 <= t1 < t2 < keyed@.len() ==> keyed@[t1].0 != keyed@[t2].0,
            forall|t1: int, t2: int|
                0 <= t1 < t2 < keyed@.len() && keyed@[t1].1 == keyed@[t2].1 ==> keyed@[t1].0
                    < keyed@[t2].0,
        decreases keyed@.len() - s,
    {
        let mut j: usize = s;
        while j > 0 && keyed[j - 1].1 > keyed[j].1
            invariant
                0 <= j <= s < keyed@.len(),
                keyed@.len() == base_set.len(),
                forall|i: int|
                    0 <= i < keyed@.len() ==> is_legal(*b, #[trigger] (keyed@[i].0 as int)),
                forall|i: int|
                    0 <= i < base_set.len() ==> #[trigger] carries(keyed@, base_set[i]),
                forall|i: int|
                    0 <= i < keyed@.len() ==> (#[trigger] keyed@[i].1) as int == move_key(
                        *b,
                        keyed@[i].0,
                    ),
                forall|t1: int, t2: int|
                    0 <= t1 < t2 <= s && t2 != j ==> keyed@[t1].1 <= keyed@[t2].1,
                forall|t1: int, t2: int|
                    0 <= t1 < t2 < keyed@.len() ==> keyed@[t1].0 != keyed@[t2].0,
                forall|t1: int, t2: int|
                    0 <= t1 < t2 < keyed@.len() && keyed@[t1].1 == keyed@[t2].1 ==> keyed@[t1].0
                        < keyed@[t2].0,
            decreases j,
        {
            let ghost before = keyed@;
            let hi = keyed[j];
            let lo = keyed[j - 1];
            keyed.set(j, lo);
            keyed.set(j - 1, hi);
            proof {
                assert forall|i: int| 0 <= i < base_set.len() implies #[trigger] carries(
                    keyed@,
                    base_set[i],
                ) by {
                    assert(carries(before, base_set[i]));
                    let t0 = choose|t0: int| 0 <= t0 < before.len() && before[t0].0 == base_set[i];
                    if t0 == j {
                        assert(keyed@[j - 1].0 == base_set[i]);
                    } else if t0 == j - 1 {
                        assert(keyed@[j as int].0 == base_set[i]);
                    } else {
                        assert(keyed@[t0].0 == base_set[i]);
                    }
                }
                assert forall|i: int| 0 <= i < keyed@.len() implies (#[trigger] keyed@[i].1)
                    as int == move_key(*b, keyed@[i].0) by {
                    if i == j {
                        assert(keyed@[i] == before[j - 1]);
                    } else if i == j - 1 {
                        assert(keyed@[i] == before[j as int]);
                    } else {
                        assert(keyed@[i] == before[i]);
                    }
                }
                assert forall|t1: int, t2: int|
                    0 <= t1 < t2 < keyed@.len() implies keyed@[t1].0 != keyed@[t2].0
                    && (keyed@[t1].1 == keyed@[t2].1 ==> keyed@[t1].0 < keyed@[t2].0) by {
                    let a1 = if t1 == j {
                        before[j - 1]
                    } else if t1 == j - 1 {
                        before[j as int]
                    } else {
                        before[t1]
                    };
                    let a2 = if t2 == j {
                        before[j - 1]
                    } else if t2 == j - 1 {
                        before[j as int]
                    } else {
                        before[t2]
                    };
                    assert(keyed@[t1] == a1 && keyed@[t2] == a2);
                    assert(before[j - 1].1 > before[j as int].1);
                }
                assert forall|t1: int, t2: int|
                    0 <= t1 < t2 <= s && t2 != j - 1 implies keyed@[t1].1 <= keyed@[t2].1 by {
                    if t2 == j {
                        if t1 == j - 1 {
                            assert(keyed@[t1] == before[j as int]);
                            assert(keyed@[t2] == before[j - 1]);
                        } else {
                            assert(keyed@[t1] == before[t1]);
                            assert(before[t1].1 <= before[j - 1].1);
                        }
                    } else if t2 > j {
                        assert(keyed@[t2] == before[t2]);
                        if t1 == j - 1 {
                            assert(keyed@[t1] == before[j as int]);
                            assert(before[j as int].1 <= before[t2].1);
                        } else if t1 == j {
                            assert(keyed@[t1] == before[j - 1]);
                            assert(before[j - 1].1 <= before[t2].1);
                        } else {
                            assert(keyed@[t1] == before[t1]);
                        }
                    } else {
                        assert(keyed@[t1] == before[t1] && keyed@[t2] == before[t2]);
                    }
                }
            }
            j = j - 1;
        }
        proof {
            assert forall|t1: int, t2: int| 0 <= t1 < t2 <= s implies keyed@[t1].1
                <= keyed@[t2].1 by {
                if t2 == j && j > 0 {
                    assert(keyed@[j - 1].1 <= keyed@[j as int].1);
                    if t1 < j - 1 {
                        assert(keyed@[t1].1 <= keyed@[j - 1].1);
                    }
                }
            }
        }
        s = s + 1;
    }
    let mut moves: Vec<u8> = Vec::new();
    let mut t2: usize = 0;
    while t2 < keyed.len()
        invariant
            t2 <= keyed@.len(),
            moves@.len() == t2,
            forall|i: int| 0 <= i < t2 ==> #[trigger] moves@[i] == keyed@[i].0,
        decreases keyed@.len() - t2,
    {
        moves.push(keyed[t2].0);
        t2 = t2 + 1;
    }
    proof {
        assert forall|t3: int| 0 <= t3 < moves@.len() implies is_legal(
            *b,
            #[trigger] (moves@[t3] as int),
        ) by {
            assert(moves@[t3] == keyed@[t3].0);
        }
        assert forall|t1: int, t2: int|
            0 <= t1 < t2 < moves@.len() implies moves@[t1] != moves@[t2] && (move_key(
            *b,
            moves@[t1],
        ) == move_key(*b, moves@[t2]) ==> moves@[t1] < moves@[t2]) by {
            assert(moves@[t1] == keyed@[t1].0 && moves@[t2] == keyed@[t2].0);
            assert(keyed@[t1].1 as int == move_key(*b, keyed@[t1].0));
            assert(keyed@[t2].1 as int == move_key(*b, keyed@[t2].0));
        }
        assert forall|i: int| is_legal(*b, i) implies exists|t3: int|
            0 <= t3 < moves@.len() && moves@[t3] as int == i by {
            crate::mobility::lemma_legal_empty(*b, i);
            lemma_mobility_bit(*b, i);
            let t0 = choose|t0: int| 0 <= t0 < base_set.len() && base_set[t0] as int == i;
            assert(carries(keyed@, base_set[t0]));
            let t1 = choose|t1: int| 0 <= t1 < keyed@.len() && keyed@[t1].0 == base_set[t0];
            assert(moves@[t1] as int == i);
        }
        if has_move(*b) {
            lemma_has_move_legal(*b);
            let i = choose|i: int| is_legal(*b, i);
            assert(exists|t3: int| 0 <= t3 < moves@.len() && moves@[t3] as int == i);
        }
        assert forall|t1: int, t2: int| 0 <= t1 < t2 < moves@.len() implies move_key(
            *b,
            moves@[t1],
        ) <= move_key(*b, moves@[t2]) by {
            if base_set.len() >= 2 {
                assert(keyed@[t1].1 <= keyed@[t2].1);
                assert(moves@[t1] == keyed@[t1].0 && moves@[t2] == keyed@[t2].0);
            }
        }
    }
    moves
}

/// The forced-move shortcut: the single legal move where exactly one exists.
pub fn one_mobility_check(b: &Board) -> (r: Option<u8>)
    ensures
        r.is_some() <==> mob_count(*b) == 1,
        r.is_some() ==> bit_set(mobility_word(*b), r.unwrap() as int) && is_legal(
            *b,
            r.unwrap() as int,
        ),
        r.is_some() ==> forall|i: int|
            bit_set(mobility_word(*b), i) ==> i == r.unwrap() as int,
{
    let m = get_mobility(b);
    let c = popcount(m);
    if c == 1 {
        proof {
            lemma_pop_count_zero(m);
        }
        let i = lowest_bit(m);
        proof {
            lemma_mobility_bit(*b, i as int);
            assert forall|i2: int| bit_set(m, i2) implies i2 == i as int by {
                if i2 < i as int {
                    crate::bits::lemma_count_two(m, i2, i as int, 64);
                } else if i2 > i as int {
                    crate::bits::lemma_count_two(m, i as int, i2, 64);
                }
            }
        }
        Some(i)
    } else {
        None
    }
}

/// A move fills one empty cell: the child position has one empty fewer.
pub proof fn lemma_apply_empties(b: Board, mv: int)
    requires
        b.inv(),
        is_legal(b, mv),
    ensures
        empties(apply_spec(b, mv)) == empties(b) - 1,
        empties(b) >= 1,
{
    let nb = apply_spec(b, mv);
    crate::mobility::lemma_move_accounting(b, mv);
    crate::bits::lemma_count_complement(b.me | b.opp, 64);
    crate::bits::lemma_count_complement(nb.me | nb.opp, 64);
    lemma_count_upto_bounds(nb.me | nb.opp, 64);
}

/// A pass moves no stone: the empties are unchanged, and so is the board
/// seen from either side.
pub proof fn lemma_pass_empties(b: Board)
    ensures
        empties(pass_spec(b)) == empties(b),
{
    let x = b.me;
    let y = b.opp;
    assert(y | x == x | y) by (bit_vector);
    assert(pass_spec(b).me | pass_spec(b).opp == b.me | b.opp);
}

fn add_saturating(a: u32, b: u32) -> (r: u32)
    ensures
        r >= a,
        r >= b,
{
    a.saturating_add(b)
}

/// One child expansion of the negascout loop: the first child is searched
/// with the full window; a later child is probed with a null window and,
/// only where the probe lands inside the real window, searched again in
/// full. The result is window-sound for the child value in `(-beta, -a)`;
/// its node count carries the probe's and, when one happened, the
/// re-search's counts together, saturating at the counter's ceiling.
#[verifier::rlimit(100)]
fn search_for_idx(
    next: &Board,
    depth: u8,
    max_depth: u8,
    a: i8,
    beta: i8,
    first: bool,
    deadline: &Option<std::time::Instant>,
) -> (r: Option<SearchResult>)
    requires
        next.inv(),
        depth < max_depth,
        -127 <= a < beta <= 127,
    ensures
        (deadline.is_none() || max_depth - depth <= 7) ==> r.is_some(),
        r.is_some() ==> ({
            let rr = r.unwrap();
            let vc = negamax(*next, max_depth - depth - 1);
            &&& -127 <= rr.score <= 127
            &&& rr.searched >= 1
            &&& window_sound(vc, rr.score as int, -beta as int, -a as int)
            &&& ((max_depth - depth - 1 > empties(*next) && -beta < rr.score < -a)
                ==> rr.game_end)
        }),
    decreases max_depth - depth, 0int, 0int,
{
    if first {
        rec_search(next, depth + 1, max_depth, -beta, -a, deadline)
    } else {
        let probe = rec_search(next, depth + 1, max_depth, -a - 1, -a, deadline);
        let nr = match probe {
            Some(r) => r,
            None => {
                return None;
            },
        };
        let nscore = -nr.score;
        if a < nscore && nscore < beta {
            let full = rec_search(next, depth + 1, max_depth, -beta, -a, deadline);
            let rr = match full {
                Some(r) => r,
                None => {
                    return None;
                },
            };
            let total = add_saturating(rr.searched, nr.searched);
            Some(result_of(rr.idx, rr.score, total, rr.game_end))
        } else {
            proof {
                let vc = negamax(*next, max_depth - depth - 1);
                if nr.score >= -a {
                    assert(vc >= nr.score);
                } else {
                    assert(nscore >= beta);
                    assert(nr.score <= -a - 1);
                    assert(vc <= nr.score);
                }
            }
            Some(nr)
        }
    }
}

/// The negascout node search. A completed search is window-sound for the
/// plain minimax value; a search against a deadline may instead abort whole,
/// and a search whose frontier is at most six stones away never aborts. A
/// leaf counts exactly one node; an interior node accumulates the counts of
/// every child expansion actually made, probes and re-searches both, with
/// children cut off by beta contributing nothing and the sum saturating at
/// the counter's ceiling.
#[verifier::rlimit(100)]
pub fn rec_search(
    b: &Board,
    depth: u8,
    max_depth: u8,
    alpha: i8,
    beta: i8,
    deadline: &Option<std::time::Instant>,
) -> (r: Option<SearchResult>)
    requires
        b.inv(),
        depth <= max_depth,
        -127 <= alpha < beta <= 127,
    ensures
        (deadline.is_none() || max_depth - depth <= 6) ==> r.is_some(),
        r.is_some() ==> search_sound(
            *b,
            depth as int,
            max_depth as int,
            alpha as int,
            beta as int,
            r.unwrap(),
        ),
    decreases max_depth - depth, (if has_move(*b) { 0int } else { 1int }), 1int,
{
    let ghost rem = max_depth - depth;
    let empty_mask = !(b.me | b.opp);
    proof {
        lemma_pop_count_zero(!(b.me | b.opp));
        lemma_count_upto_bounds(!(b.me | b.opp), 64);
    }
    if depth >= max_depth || empty_mask == 0 {
        let ev = evaluate(b);
        return Some(result_of(255, ev, 1, empty_mask == 0));
    }
    let mobility = get_mobility(b);
    if mobility == 0 {
        let passed = b.pass();
        let pass_mob = get_mobility(&passed);
        if pass_mob == 0 {
            let ev = evaluate(b);
            return Some(result_of(255, ev, 1, true));
        }
        let rr = match rec_search(&passed, depth, max_depth, -beta, -alpha, deadline) {
            Some(r) => r,
            None => {
                return None;
            },
        };
        let score = -rr.score;
        proof {
            lemma_pass_empties(*b);
            assert(negamax(*b, rem) == -negamax(pass_spec(*b), rem));
        }
        return Some(result_of(255, score, rr.searched, rr.game_end));
    }
    let moves = if max_depth - depth <= 6 {
        naive_ordering(b, mobility)
    } else {
        fastest_first_ordering(b, mobility)
    };
    proof {
        assert(is_legal(*b, moves@[0] as int));
        crate::mobility::lemma_legal_empty(*b, moves@[0] as int);
    }
    let first_board = put(b, moves[0]);
    let fr = match search_for_idx(&first_board, depth, max_depth, alpha, beta, true, deadline) {
        Some(r) => r,
        None => {
            return None;
        },
    };
    let mut best_idx = moves[0];
    let mut best_score = -fr.score;
    if best_score < alpha {
        best_score = alpha;
    }
    let mut best_end = fr.game_end;
    let mut searched = fr.searched;
    proof {
        lemma_best_from_props(*b, rem, 0);
        lemma_apply_empties(*b, best_idx as int);
        assert(negamax(*b, rem) == best_from(*b, rem, 0));
    }
    if best_score >= beta {
        return Some(result_of(best_idx, best_score, searched, best_end));
    }
    let mut i: usize = 1;
    while i < moves.len()
        invariant
            b.inv(),
            depth < max_depth,
            rem == max_depth - depth,
            -127 <= alpha < beta <= 127,
            mobility == mobility_word(*b),
            has_move(*b),
            empties(*b) != 0,
            lists_moves(*b, moves@),
            1 <= i <= moves@.len(),
            alpha <= best_score < beta,
            best_idx < 64,
            is_legal(*b, best_idx as int),
            best_score > alpha ==> best_score as int == -negamax(
                apply_spec(*b, best_idx as int),
                rem - 1,
            ),
            forall|t: int|
                0 <= t < i ==> -negamax(apply_spec(*b, #[trigger] (moves@[t] as int)), rem - 1)
                    <= best_score as int,
            (rem > empties(*b) && best_score > alpha) ==> best_end,
            searched >= 1,
        decreases moves@.len() - i,
    {
        if max_depth - depth > 6 {
            if is_past(deadline) {
                return None;
            }
        }
        let mv = moves[i];
        proof {
            assert(is_legal(*b, moves@[i as int] as int));
            crate::mobility::lemma_legal_empty(*b, mv as int);
        }
        let child = put(b, mv);
        let cr = match search_for_idx(&child, depth, max_depth, best_score, beta, false, deadline)
            {
            Some(r) => r,
            None => {
                return None;
            },
        };
        searched = add_saturating(searched, cr.searched);
        let score = -cr.score;
        let ghost old_best = best_score;
        proof {
            lemma_apply_empties(*b, mv as int);
            lemma_best_from_props(*b, rem, 0);
        }
        if score > best_score {
            best_idx = mv;
            best_score = score;
            best_end = cr.game_end;
        }
        if score >= beta {
            proof {
                assert(cr.score <= -beta);
                assert(negamax(apply_spec(*b, mv as int), rem - 1) <= cr.score);
            }
            return Some(result_of(best_idx, best_score, searched, best_end));
        }
        proof {
            if score > old_best {
                assert(-beta < cr.score < -old_best);
                assert(cr.score == negamax(apply_spec(*b, mv as int), rem - 1));
            } else {
                assert(cr.score >= -old_best);
                assert(negamax(apply_spec(*b, mv as int), rem - 1) >= cr.score);
            }
        }
        i = i + 1;
    }
    proof {
        lemma_best_from_props(*b, rem, 0);
        let v = best_from(*b, rem, 0);
        lemma_has_move_legal(*b);
        if exists|m: int| 0 <= m < 64 && is_legal(*b, m) {
            let m = choose|m: int|
                0 <= m < 64 && is_legal(*b, m) && best_from(*b, rem, 0) == -negamax(
                    apply_spec(*b, m),
                    rem - 1,
                );
            let t = choose|t: int| 0 <= t < moves@.len() && moves@[t] as int == m;
            assert(-negamax(apply_spec(*b, moves@[t] as int), rem - 1) <= best_score as int);
            assert(v <= best_score as int);
        } else {
            let i0 = choose|i0: int| is_legal(*b, i0);
            crate::mobility::lemma_legal_empty(*b, i0);
            assert(false);
        }
    }
    Some(result_of(best_idx, best_score, searched, best_end))
}

/// A side with a move has an empty cell to play into.
pub proof fn lemma_has_move_empties(b: Board)
    requires
        has_move(b),
    ensures
        empties(b) >= 1,
{
    lemma_has_move_legal(b);
    let i = choose|i: int| is_legal(b, i);
    crate::mobility::lemma_legal_empty(b, i);
    crate::bits::lemma_bit_or(b.me, b.opp, i);
    crate::bits::lemma_bit_not(b.me | b.opp, i);
    crate::bits::lemma_count_positive(!(b.me | b.opp), i, 64);
}

/// What an exact solve promises: the score is the true end-of-game value,
/// and where a move exists the returned move attains it.
pub open spec fn exact_outcome(b: Board, r: SearchResult) -> bool {
    &&& r.score as int == negamax(b, empties(b) + 1)
    &&& -64 <= r.score <= 64
    &&& r.game_end
    &&& (has_move(b) ==> (r.idx < 64 && is_legal(b, r.idx as int) && r.score as int == -negamax(
        apply_spec(b, r.idx as int),
        empties(b),
    )))
    &&& (!(empties(b) != 0 && has_move(b)) ==> r.idx == 255)
}

/// Solve a position exactly: a full-width search deep enough to reach the
/// true end of the game, whatever is played.
pub fn complete_search(b: &Board) -> (r: SearchResult)
    requires
        b.inv(),
    ensures
        exact_outcome(*b, r),
{
    let empties_cnt = popcount(!(b.me | b.opp));
    proof {
        lemma_count_upto_bounds(!(b.me | b.opp), 64);
    }
    let depth = (empties_cnt as u8) + 1;
    let r = rec_search(b, 0, depth, -127, 127, &None).unwrap();
    proof {
        lemma_negamax_bounds(*b, depth as int);
        if has_move(*b) {
            lemma_has_move_empties(*b);
        }
        assert(-127 < r.score < 127);
    }
    r
}

/// Pruned and plain search agree: the minimax value fits every full-width
/// window, so any two scores that are window-sound for it at full width are
/// the value itself. The negascout score and the score of a plain
/// alpha-beta pass over the same position are both such scores.
pub proof fn lemma_full_width_scores_agree(b: Board, rem: int, s1: int, s2: int)
    requires
        window_sound(negamax(b, rem), s1, -127, 127),
        window_sound(negamax(b, rem), s2, -127, 127),
        -127 <= s1 <= 127,
        -127 <= s2 <= 127,
    ensures
        s1 == negamax(b, rem),
        s2 == negamax(b, rem),
{
    lemma_negamax_bounds(b, rem);
}

/// Determinism of the exact solve: any two results that meet its contract
/// agree on the score and the end-of-game claim, each names a move
/// attaining that score, and where only one move attains it the moves agree
/// as well.
pub proof fn lemma_exact_solve_agrees(b: Board, r1: SearchResult, r2: SearchResult)
    requires
        exact_outcome(b, r1),
        exact_outcome(b, r2),
    ensures
        r1.score == r2.score,
        r1.game_end == r2.game_end,
        (has_move(b) && (forall|m: int|
            is_legal(b, m) && m != r1.idx as int ==> -negamax(apply_spec(b, m), empties(b))
                != r1.score as int)) ==> r1.idx == r2.idx,
{
    if has_move(b) && (forall|m: int|
        is_legal(b, m) && m != r1.idx as int ==> -negamax(apply_spec(b, m), empties(b))
            != r1.score as int) {
        assert(is_legal(b, r2.idx as int));
        if r2.idx as int != r1.idx as int {
            assert(-negamax(apply_spec(b, r2.idx as int), empties(b)) != r1.score as int);
            assert(false);
        }
    }
}

pub const MAX_DEPTH: u8 = 20;

/// The move of some iterative-deepening pass that ran to completion: a
/// window-sound search of `b` from the root, between five plies and the cap
/// deep, chose it.
pub open spec fn from_completed_pass(b: Board, mv: u8) -> bool {
    exists|d: int, res: SearchResult|
        5 <= d <= MAX_DEPTH && #[trigger] search_sound(b, 0, d, -100, 100, res) && res.idx == mv
}

/// The anytime move chooser: a forced move is answered at once without
/// searching; otherwise the search deepens from five stones ahead up to the
/// cap, keeping the move of the deepest pass completed inside the budget. A
/// pass aborted by the deadline is discarded whole; the five-stone pass
/// never checks the clock, so a side with a move always receives a legal
/// move from a completed pass.
pub fn find_best_move(b: &Board, ms: u64) -> (r: u8)
    requires
        b.inv(),
    ensures
        has_move(*b) ==> r < 64 && is_legal(*b, r as int),
        mob_count(*b) == 1 ==> bit_set(mobility_word(*b), r as int) && (forall|i: int|
            bit_set(mobility_word(*b), i) ==> i == r as int),
        (has_move(*b) && mob_count(*b) != 1) ==> from_completed_pass(*b, r),
{
    let shortcut = one_mobility_check(b);
    match shortcut {
        Some(idx) => {
            return idx;
        },
        None => {},
    }
    let deadline = deadline_in(ms);
    let result5 = rec_search(b, 0, 5, -100, 100, &deadline).unwrap();
    let mut result = result5;
    let ghost mut wit_depth: int = 5;
    proof {
        if has_move(*b) {
            lemma_has_move_empties(*b);
        }
        assert(search_sound(*b, 0, wit_depth, -100, 100, result));
    }
    if result.game_end {
        return result.idx;
    }
    let mut depth: u8 = 6;
    while depth <= MAX_DEPTH
        invariant
            b.inv(),
            6 <= depth,
            mob_count(*b) != 1,
            5 <= wit_depth <= MAX_DEPTH,
            search_sound(*b, 0, wit_depth, -100, 100, result),
            has_move(*b) ==> (result.idx < 64 && is_legal(*b, result.idx as int)),
        decreases MAX_DEPTH + 1 - depth,
    {
        let next = rec_search(b, 0, depth, -100, 100, &deadline);
        match next {
            Some(rr) => {
                proof {
                    if has_move(*b) {
                        lemma_has_move_empties(*b);
                    }
                    wit_depth = depth as int;
                }
                result = rr;
                if result.game_end {
                    proof {
                        assert(search_sound(*b, 0, wit_depth, -100, 100, result));
                    }
                    return result.idx;
                }
            },
            None => {
                proof {
                    assert(search_sound(*b, 0, wit_depth, -100, 100, result));
                }
                return result.idx;
            },
        }
        depth = depth + 1;
    }
    result.idx
}

} // verus!
