//! The playout of the statistical tree search: play uniformly random legal
//! moves, passing when forced, until the endgame is close, then solve the
//! rest exactly.
use vstd::prelude::*;

use rand::seq::SliceRandom;

use crate::bits::{lemma_count_upto_bounds, lemma_pop_count_zero, popcount};
use crate::board::Board;
use crate::mobility::{get_mobility, line_playable, moves_of, play_from, put};
use crate::search::{
    complete_search, empties, exact_outcome, lemma_apply_empties, lemma_mobility_bit,
    lemma_pass_empties, SearchResult,
};

verus! {

/// Relies on rand's `SliceRandom::shuffle`: an in-place permutation of the
/// slice, picked uniformly at random.
#[verifier::external_body]
fn shuffle_moves(v: &mut Vec<u8>)
    ensures
        final(v)@.len() == old(v)@.len(),
        forall|t: int| 0 <= t < final(v)@.len() ==> old(v)@.contains(#[trigger] final(v)@[t]),
{
    v.shuffle(&mut rand::rng())
}

/// Play random legal moves until at most eight cells stay empty, or both
/// sides pass in turn; then solve the remaining endgame exactly. Whatever
/// the random choices were, the result is an exact solve of some position
/// reached from the input by legal moves and forced passes.
pub fn playout(board: &Board) -> (r: SearchResult)
    requires
        board.inv(),
    ensures
        r.game_end,
        -64 <= r.score <= 64,
        exists|line: Seq<Option<u8>>|
            #[trigger] line_playable(*board, line) && exact_outcome(play_from(*board, line), r),
{
    let mut b = Board { me: board.me, opp: board.opp };
    let mut passes = false;
    let ghost mut line: Seq<Option<u8>> = Seq::empty();
    proof {
        assert(play_from(*board, line) == b);
    }
    loop
        invariant
            b.inv(),
            line_playable(*board, line),
            b == play_from(*board, line),
        decreases empties(b), (if passes { 0int } else { 1int }),
    {
        let empties_cnt = popcount(!(b.me | b.opp));
        if empties_cnt <= 8 {
            break ;
        }
        let m = get_mobility(&b);
        if m == 0 {
            if passes {
                break ;
            }
            passes = true;
            proof {
                lemma_pass_empties(b);
                let pushed = line.push(None);
                assert(pushed.drop_last() =~= line);
                assert(line_playable(*board, pushed));
                line = pushed;
            }
            b = b.pass();
            continue ;
        }
        passes = false;
        let mut moves = moves_of(m);
        proof {
            lemma_pop_count_zero(m);
            lemma_count_upto_bounds(m, 64);
        }
        let ghost listed = moves@;
        shuffle_moves(&mut moves);
        let mv = moves[0];
        proof {
            assert(listed.contains(moves@[0]));
            let t = choose|t: int| 0 <= t < listed.len() && listed[t] == mv;
            assert(crate::bits::bit_set(m, listed[t] as int));
            lemma_mobility_bit(b, mv as int);
            lemma_apply_empties(b, mv as int);
            let pushed = line.push(Some(mv));
            assert(pushed.drop_last() =~= line);
            assert(line_playable(*board, pushed));
            line = pushed;
        }
        b = put(&b, mv);
    }
    let r = complete_search(&b);
    proof {
        assert(line_playable(*board, line) && exact_outcome(play_from(*board, line), r));
    }
    r
}

} // verus!
