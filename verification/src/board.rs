//! The board itself: two disjoint bitboards, the fixed starting layout, and
//! the textual board expression (parse / serialize, exact inverses).
use vstd::prelude::*;

use crate::bits::{
    bit_set, lemma_bit_and, lemma_bit_disjoint, lemma_bit_or, lemma_bit_single, lemma_word_ext,
    lemma_word_upto_bit, lemma_zero_word_bits, valid_cell, word_upto,
};

verus! {

/// One game position. `me` holds the stones of the side to move, `opp` the
/// stones of the other side; a pass swaps the two words. No cell is ever
/// occupied by both sides.
#[derive(Debug, Clone, PartialEq, Eq, Structural)]
pub struct Board {
    pub me: u64,
    pub opp: u64,
}

/// The position after the side to move passes: the same stones, seen from the
/// other side.
pub open spec fn pass_spec(b: Board) -> Board {
    Board { me: b.opp, opp: b.me }
}

/// The fixed starting layout.
pub open spec fn initial_board() -> Board {
    Board { me: 1u64 << 27, opp: (1u64 << 28) | (7u64 << 35) }
}

impl Board {
    /// No cell is occupied by both sides.
    pub open spec fn inv(&self) -> bool {
        self.me & self.opp == 0
    }

    /// The standard starting layout: four center stones, one pair per side.
    pub fn new() -> (b: Board)
        ensures
            b == initial_board(),
            b.inv(),
    {
        let b = Board { me: 1 << 27, opp: (1 << 28) | (7 << 35) };
        proof {
            assert((1u64 << 27) & ((1u64 << 28) | (7u64 << 35)) == 0) by (bit_vector);
        }
        b
    }

    /// Hand the turn to the other side without placing a stone.
    pub fn pass(&self) -> (b: Board)
        ensures
            b == pass_spec(*self),
            self.inv() ==> b.inv(),
    {
        proof {
            let m = self.me;
            let o = self.opp;
            assert(m & o == 0 ==> o & m == 0) by (bit_vector);
        }
        Board { me: self.opp, opp: self.me }
    }
}

/// The board encoded by a 64-character board expression: `'X'` cells are the
/// mover's stones, `'O'` cells the opponent's, anything else is empty.
pub open spec fn parse_spec(s: Seq<char>) -> Board {
    Board {
        me: word_upto(|i: int| s[i] == 'X', 64),
        opp: word_upto(|i: int| s[i] == 'O', 64),
    }
}

/// The character serialized for cell `i` of board `b`.
pub open spec fn board_char(b: Board, i: int) -> char {
    if bit_set(b.me, i) {
        'X'
    } else if bit_set(b.opp, i) {
        'O'
    } else {
        '-'
    }
}

/// The 64-character board expression of board `b`, row-major.
pub open spec fn serialize_spec(b: Board) -> Seq<char> {
    Seq::new(64, |i: int| board_char(b, i))
}

/// Read a board from a 64-character board expression.
pub fn parse(s: &str) -> (b: Board)
    requires
        s@.len() == 64,
    ensures
        b == parse_spec(s@),
        b.inv(),
{
    let mut me: u64 = 0;
    let mut opp: u64 = 0;
    let mut idx: usize = 0;
    while idx < 64
        invariant
            s@.len() == 64,
            idx <= 64,
            me == word_upto(|i: int| s@[i] == 'X', idx as int),
            opp == word_upto(|i: int| s@[i] == 'O', idx as int),
        decreases 64 - idx,
    {
        let c = s.get_char(idx);
        let j = idx as u64;
        if c == 'X' {
            me = me | (1u64 << j);
        } else if c == 'O' {
            opp = opp | (1u64 << j);
        }
        proof {
            let w = word_upto(|i: int| s@[i] == 'X', idx as int);
            let v = word_upto(|i: int| s@[i] == 'O', idx as int);
            assert(w | 0u64 == w) by (bit_vector);
            assert(v | 0u64 == v) by (bit_vector);
        }
        idx = idx + 1;
    }
    let b = Board { me, opp };
    proof {
        assert forall|i: int| valid_cell(i) implies !bit_set(me & opp, i) by {
            lemma_bit_and(me, opp, i);
            lemma_word_upto_bit(|i: int| s@[i] == 'X', 64, i);
            lemma_word_upto_bit(|i: int| s@[i] == 'O', 64, i);
        }
        assert forall|i: int| valid_cell(i) implies (bit_set(me & opp, i) <==> bit_set(0u64, i)) by {
            lemma_zero_word_bits(i);
        }
        lemma_word_ext(me & opp, 0u64);
    }
    b
}

/// Write a board as a 64-character board expression.
pub fn serialize(b: &Board) -> (s: String)
    ensures
        s@ == serialize_spec(*b),
{
    let mut s = String::new();
    let mut idx: usize = 0;
    while idx < 64
        invariant
            idx <= 64,
            s@.len() == idx,
            forall|i: int| 0 <= i < idx ==> s@[i] == board_char(*b, i),
        decreases 64 - idx,
    {
        let j = idx as u64;
        if (b.me >> j) & 1u64 == 1u64 {
            s.append("X");
            proof {
                reveal_strlit("X");
            }
        } else if (b.opp >> j) & 1u64 == 1u64 {
            s.append("O");
            proof {
                reveal_strlit("O");
            }
        } else {
            s.append("-");
            proof {
                reveal_strlit("-");
            }
        }
        idx = idx + 1;
    }
    proof {
        assert(s@ =~= serialize_spec(*b));
    }
    s
}

/// Serializing a board and parsing the result gives the same board back:
/// the board expression is an exact inverse pair on every position whose two
/// sides are disjoint.
pub proof fn lemma_round_trip(b: Board)
    requires
        b.inv(),
    ensures
        parse_spec(serialize_spec(b)) == b,
{
    let s = serialize_spec(b);
    let me2 = word_upto(|i: int| s[i] == 'X', 64);
    let opp2 = word_upto(|i: int| s[i] == 'O', 64);
    assert forall|i: int| valid_cell(i) implies (bit_set(me2, i) <==> bit_set(b.me, i)) by {
        lemma_word_upto_bit(|i: int| s[i] == 'X', 64, i);
    }
    assert forall|i: int| valid_cell(i) implies (bit_set(opp2, i) <==> bit_set(b.opp, i)) by {
        lemma_word_upto_bit(|i: int| s[i] == 'O', 64, i);
        lemma_bit_disjoint(b.me, b.opp, i);
    }
    lemma_word_ext(me2, b.me);
    lemma_word_ext(opp2, b.opp);
    assert(parse_spec(s) == b);
}


/// The labelled bitboards as the renderer sees them: each label with its
/// cells.
pub open spec fn entries_view(s: Seq<(String, u64)>) -> Seq<(Seq<char>, u64)> {
    s.map(|i: int, e: (String, u64)| (e.0@, e.1))
}

/// The labels of the entries below `e` whose bitboard holds cell `idx`,
/// concatenated in entry order.
pub open spec fn marks_upto(entries: Seq<(Seq<char>, u64)>, idx: int, e: int) -> Seq<char>
    decreases e,
{
    if e <= 0 {
        Seq::empty()
    } else {
        marks_upto(entries, idx, e - 1) + (if bit_set(entries[e - 1].1, idx) {
            entries[e - 1].0
        } else {
            Seq::<char>::empty()
        })
    }
}

/// Whether any entry holds cell `idx`.
pub open spec fn any_mark(entries: Seq<(Seq<char>, u64)>, idx: int) -> bool {
    exists|e: int| 0 <= e < entries.len() && bit_set(#[trigger] entries[e].1, idx)
}

/// The text of one cell: every matching label, or a blank square.
pub open spec fn cell_text(entries: Seq<(Seq<char>, u64)>, idx: int) -> Seq<char> {
    if any_mark(entries, idx) {
        marks_upto(entries, idx, entries.len() as int)
    } else {
        seq!['\u{3000}']
    }
}

/// The cells of row `y` below column `x`, concatenated.
pub open spec fn row_upto(entries: Seq<(Seq<char>, u64)>, y: int, x: int) -> Seq<char>
    decreases x,
{
    if x <= 0 {
        Seq::empty()
    } else {
        row_upto(entries, y, x - 1) + cell_text(entries, y * 8 + (x - 1))
    }
}

/// One framed row of the rendered board.
pub open spec fn row_text(entries: Seq<(Seq<char>, u64)>, y: int) -> Seq<char> {
    seq!['|', ' '] + row_upto(entries, y, 8) + seq![' ', '|', '\n']
}

/// The rows above `y`, concatenated.
pub open spec fn rows_upto(entries: Seq<(Seq<char>, u64)>, y: int) -> Seq<char>
    decreases y,
{
    if y <= 0 {
        Seq::empty()
    } else {
        rows_upto(entries, y - 1) + row_text(entries, y - 1)
    }
}

/// The horizontal rule that frames the board.
pub open spec fn rule_line() -> Seq<char> {
    seq!['\u{30fc}', '\u{30fc}', '\u{30fc}', '\u{30fc}', '\u{30fc}', '\u{30fc}', '\u{30fc}', '\u{30fc}', '\u{30fc}', '\u{30fc}']
}

/// The whole rendered grid: a rule, eight framed rows, a rule.
pub open spec fn grid_text(entries: Seq<(Seq<char>, u64)>) -> Seq<char> {
    rule_line() + seq!['\n'] + rows_upto(entries, 8) + rule_line()
}

/// No matching entry below `e` leaves the marks empty.
proof fn lemma_marks_empty(entries: Seq<(Seq<char>, u64)>, idx: int, e: int)
    requires
        forall|e2: int| 0 <= e2 < e ==> !bit_set(#[trigger] entries[e2].1, idx),
    ensures
        marks_upto(entries, idx, e) =~= Seq::<char>::empty(),
    decreases e,
{
    if e > 0 {
        lemma_marks_empty(entries, idx, e - 1);
    }
}

/// Render labelled bitboards as a framed 8-by-8 grid of labels.
#[verifier::rlimit(100)]
pub fn to_str(entries: &Vec<(String, u64)>) -> (s: String)
    ensures
        s@ == grid_text(entries_view(entries@)),
{
    let ghost ev = entries_view(entries@);
    let mut s = String::new();
    s.append("\u{30fc}\u{30fc}\u{30fc}\u{30fc}\u{30fc}\u{30fc}\u{30fc}\u{30fc}\u{30fc}\u{30fc}\n");
    proof {
        reveal_strlit("\u{30fc}\u{30fc}\u{30fc}\u{30fc}\u{30fc}\u{30fc}\u{30fc}\u{30fc}\u{30fc}\u{30fc}\n");
        assert(s@ =~= rule_line() + seq!['\n']);
    }
    let mut y: usize = 0;
    while y < 8
        invariant
            y <= 8,
            ev == entries_view(entries@),
            s@ =~= rule_line() + seq!['\n'] + rows_upto(ev, y as int),
        decreases 8 - y,
    {
        let ghost row_pre = s@;
        s.append("| ");
        proof {
            reveal_strlit("| ");
            assert(s@ =~= row_pre + seq!['|', ' ']);
        }
        let mut x: usize = 0;
        while x < 8
            invariant
                x <= 8,
                y < 8,
                ev == entries_view(entries@),
                s@ =~= row_pre + seq!['|', ' '] + row_upto(ev, y as int, x as int),
            decreases 8 - x,
        {
            let ghost cell_pre = s@;
            let ghost idx_g = (y * 8 + x) as int;
            let idx = (y * 8 + x) as u64;
            let mut found = false;
            let mut e: usize = 0;
            while e < entries.len()
                invariant
                    e <= entries@.len(),
                    idx_g == idx as int,
                    0 <= idx_g < 64,
                    ev == entries_view(entries@),
                    s@ =~= cell_pre + marks_upto(ev, idx_g, e as int),
                    found == exists|e2: int|
                        0 <= e2 < e && bit_set(#[trigger] ev[e2].1, idx_g),
                decreases entries@.len() - e,
            {
                let entry_mask = entries[e].1;
                if (entry_mask >> idx) & 1u64 == 1u64 {
                    let ghost before = s@;
                    s.append(entries[e].0.as_str());
                    found = true;
                    proof {
                        assert(bit_set(ev[e as int].1, idx_g));
                        assert(s@ =~= cell_pre + marks_upto(ev, idx_g, e as int + 1));
                    }
                } else {
                    proof {
                        assert(!bit_set(ev[e as int].1, idx_g));
                        assert(s@ =~= cell_pre + marks_upto(ev, idx_g, e as int + 1));
                    }
                }
                e = e + 1;
            }
            if !found {
                s.append("\u{3000}");
                proof {
                    reveal_strlit("\u{3000}");
                    lemma_marks_empty(ev, idx_g, ev.len() as int);
                    assert(!any_mark(ev, idx_g));
                    assert(cell_text(ev, idx_g) =~= seq!['\u{3000}']);
                    assert(s@ =~= cell_pre + cell_text(ev, idx_g));
                }
            } else {
                proof {
                    assert(any_mark(ev, idx_g));
                    assert(s@ =~= cell_pre + cell_text(ev, idx_g));
                }
            }
            x = x + 1;
            proof {
                assert(idx_g == (y as int) * 8 + (x as int - 1));
                assert(row_upto(ev, y as int, x as int) =~= row_upto(ev, y as int, x as int - 1)
                    + cell_text(ev, idx_g));
                assert(s@ =~= row_pre + seq!['|', ' '] + row_upto(ev, y as int, x as int));
            }
        }
        s.append(" |\n");
        y = y + 1;
        proof {
            reveal_strlit(" |\n");
            assert(s@ =~= row_pre + row_text(ev, y as int - 1));
            assert(rows_upto(ev, y as int) =~= rows_upto(ev, y as int - 1) + row_text(
                ev,
                y as int - 1,
            ));
            assert(s@ =~= rule_line() + seq!['\n'] + rows_upto(ev, y as int));
        }
    }
    s.append("\u{30fc}\u{30fc}\u{30fc}\u{30fc}\u{30fc}\u{30fc}\u{30fc}\u{30fc}\u{30fc}\u{30fc}");
    proof {
        reveal_strlit("\u{30fc}\u{30fc}\u{30fc}\u{30fc}\u{30fc}\u{30fc}\u{30fc}\u{30fc}\u{30fc}\u{30fc}");
        assert(s@ =~= grid_text(ev));
    }
    s
}

} // verus!
