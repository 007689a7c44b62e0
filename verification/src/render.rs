//! Textual rendering of bitboards: the board grid with the legal moves or
//! the flips of one move marked.
use vstd::prelude::*;

use vstd::string::StringExecFns;

use crate::board::Board;
use crate::mobility::{flip_word, get_flip, get_mobility, mobility_word};

verus! {

/// The rendered entries of `print_movility`: the mover's stones, the
/// opponent's stones, and the legal moves.
pub open spec fn movility_entries(b: Board) -> Seq<(Seq<char>, u64)> {
    seq![
        (seq!['\u{ff4f}'], b.me),
        (seq!['\u{ff58}'], b.opp),
        (seq!['\u{ff3f}'], mobility_word(b)),
    ]
}

/// Render the board with its legal moves marked.
pub fn print_movility(b: &Board) -> (s: String)
    ensures
        s@ == crate::board::grid_text(movility_entries(*b)),
{
    let m = get_mobility(b);
    let mut entries: Vec<(String, u64)> = Vec::new();
    entries.push((String::from_str("\u{ff4f}"), b.me));
    entries.push((String::from_str("\u{ff58}"), b.opp));
    entries.push((String::from_str("\u{ff3f}"), m));
    let s = crate::board::to_str(&entries);
    proof {
        reveal_strlit("\u{ff4f}");
        reveal_strlit("\u{ff58}");
        reveal_strlit("\u{ff3f}");
        assert(crate::board::entries_view(entries@) =~~= movility_entries(*b));
    }
    s
}

/// The rendered entries of `print_flip`: the stones a move would flip.
pub open spec fn flip_entries(b: Board, mv: int) -> Seq<(Seq<char>, u64)> {
    seq![(seq!['\u{ff3f}'], flip_word(b, mv))]
}

/// Render the stones that placing at `me_idx` would flip.
pub fn print_flip(b: &Board, me_idx: u8) -> (s: String)
    requires
        b.inv(),
        me_idx < 64,
    ensures
        s@ == crate::board::grid_text(flip_entries(*b, me_idx as int)),
{
    let flip = get_flip(b, me_idx);
    let mut entries: Vec<(String, u64)> = Vec::new();
    entries.push((String::from_str("\u{ff3f}"), flip));
    let s = crate::board::to_str(&entries);
    proof {
        reveal_strlit("\u{ff3f}");
        assert(crate::board::entries_view(entries@) =~~= flip_entries(*b, me_idx as int));
    }
    s
}

} // verus!
