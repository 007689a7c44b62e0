//! Move generation: the legal-move mask, per-move capture masks, and move
//! application, all proved against a geometric line-capture specification.
use vstd::prelude::*;

use crate::bits::{bit_set, pop_count, valid_cell, word_upto};
use crate::board::{pass_spec, Board};

verus! {

/// The eight capture directions on the board.
#[derive(Clone, Copy, Debug, PartialEq, Eq, Structural)]
pub enum Dir {
    E,
    W,
    S,
    N,
    SE,
    NW,
    SW,
    NE,
}

/// Column step of one move in direction `d`.
pub open spec fn dcol(d: Dir) -> int {
    match d {
        Dir::E => 1,
        Dir::W => -1,
        Dir::S => 0,
        Dir::N => 0,
        Dir::SE => 1,
        Dir::NW => -1,
        Dir::SW => -1,
        Dir::NE => 1,
    }
}

/// Row step of one move in direction `d`.
pub open spec fn drow(d: Dir) -> int {
    match d {
        Dir::E => 0,
        Dir::W => 0,
        Dir::S => 1,
        Dir::N => -1,
        Dir::SE => 1,
        Dir::NW => -1,
        Dir::SW => 1,
        Dir::NE => -1,
    }
}

/// Index step of one move in direction `d`, row-major.
pub open spec fn delta(d: Dir) -> int {
    8 * drow(d) + dcol(d)
}

/// The cell reached from `i` after `j` steps in direction `d`.
pub open spec fn tgt(i: int, d: Dir, j: int) -> int {
    i + j * delta(d)
}

/// Whether `j` steps from `i` in direction `d` stay on the 8x8 grid.
pub open spec fn step_in(i: int, d: Dir, j: int) -> bool {
    &&& 0 <= i / 8 + j * drow(d) <= 7
    &&& 0 <= i % 8 + j * dcol(d) <= 7
}

/// Cells `1..=k` steps from `i` in direction `d` all hold opponent stones.
pub open spec fn opp_run(b: Board, i: int, d: Dir, k: int) -> bool
    decreases k,
{
    if k <= 0 {
        true
    } else {
        step_in(i, d, k) && bit_set(b.opp, tgt(i, d, k)) && opp_run(b, i, d, k - 1)
    }
}

/// Placing at `i` captures exactly the run of `k >= 1` opponent stones in
/// direction `d`, closed off by a mover stone.
pub open spec fn captures(b: Board, i: int, d: Dir, k: int) -> bool {
    &&& 1 <= k
    &&& opp_run(b, i, d, k)
    &&& step_in(i, d, k + 1)
    &&& bit_set(b.me, tgt(i, d, k + 1))
}

/// Cell `i` is on the board and holds no stone.
pub open spec fn empty_cell(b: Board, i: int) -> bool {
    valid_cell(i) && !bit_set(b.me, i) && !bit_set(b.opp, i)
}

/// Placing at `i` captures at least one run in direction `d`.
pub open spec fn legal_in_dir(b: Board, i: int, d: Dir) -> bool {
    empty_cell(b, i) && exists|k: int| captures(b, i, d, k)
}

/// Cell `i` is a legal move for the side to move.
pub open spec fn is_legal(b: Board, i: int) -> bool {
    exists|d: Dir| legal_in_dir(b, i, d)
}

/// The legal-move mask: one bit per legal move.
pub open spec fn mobility_word(b: Board) -> u64 {
    word_upto(|i: int| is_legal(b, i), 64)
}

/// Cell `i` changes ownership when the mover places at `mv`.
pub open spec fn flips_at_dir(b: Board, mv: int, d: Dir, i: int) -> bool {
    exists|k: int, j: int|
        #[trigger] captures(b, mv, d, k) && 1 <= j <= k && i == #[trigger] tgt(mv, d, j)
}

/// Cell `i` changes ownership in some direction when the mover places at `mv`.
pub open spec fn flips_at(b: Board, mv: int, i: int) -> bool {
    exists|d: Dir| flips_at_dir(b, mv, d, i)
}

/// The capture mask of move `mv`: one bit per flipped stone.
pub open spec fn flip_word(b: Board, mv: int) -> u64 {
    word_upto(|i: int| flips_at(b, mv, i), 64)
}

/// The position after the mover places at `mv`: the flipped stones and the
/// new stone join the mover's side, and the two sides swap.
pub open spec fn apply_spec(b: Board, mv: int) -> Board {
    Board {
        me: b.opp & !flip_word(b, mv),
        opp: b.me | flip_word(b, mv) | (1u64 << (mv as u64)),
    }
}

/// Bits `i + s, i + 2s, ..., i + ks` are all set in `x`.
pub open spec fn run_at(x: u64, i: int, s: int, k: int) -> bool
    decreases k,
{
    if k <= 0 {
        true
    } else {
        bit_set(x, i + k * s) && run_at(x, i, s, k - 1)
    }
}

/// A run of `k` set `prop` bits from `i`, closed by a set `gen` bit.
pub open spec fn cap_at(gen: u64, prop: u64, i: int, s: int, k: int) -> bool {
    run_at(prop, i, s, k) && bit_set(gen, i + (k + 1) * s)
}

/// Some run of length 1 to 6 from `i` with step `s` is closed by a `gen` bit.
pub open spec fn caps_upto6(gen: u64, prop: u64, i: int, s: int) -> bool {
    ||| cap_at(gen, prop, i, s, 1)
    ||| cap_at(gen, prop, i, s, 2)
    ||| cap_at(gen, prop, i, s, 3)
    ||| cap_at(gen, prop, i, s, 4)
    ||| cap_at(gen, prop, i, s, 5)
    ||| cap_at(gen, prop, i, s, 6)
}

/// Six doubling steps of the downward flood: `prop` cells reachable from a
/// `gen` cell by repeated shifts of `s`, shifted one step further.
pub open spec fn flood_shr(gen: u64, prop: u64, s: u64) -> u64 {
    let f1 = prop & (gen >> s);
    let f2 = f1 | (prop & (f1 >> s));
    let f3 = f2 | (prop & (f2 >> s));
    let f4 = f3 | (prop & (f3 >> s));
    let f5 = f4 | (prop & (f4 >> s));
    let f6 = f5 | (prop & (f5 >> s));
    f6 >> s
}

/// The upward twin of `flood_shr`.
pub open spec fn flood_shl(gen: u64, prop: u64, s: u64) -> u64 {
    let f1 = prop & (gen << s);
    let f2 = f1 | (prop & (f1 << s));
    let f3 = f2 | (prop & (f2 << s));
    let f4 = f3 | (prop & (f3 << s));
    let f5 = f4 | (prop & (f4 << s));
    let f6 = f5 | (prop & (f5 << s));
    f6 << s
}

/// Bit `i` of the downward flood marks a closed run toward higher indices.
pub proof fn lemma_flood_shr_bits(gen: u64, prop: u64, s: u64)
    by (bit_vector)
    requires
        1 <= s <= 9,
    ensures
        forall|i: u64|
            i < 64 ==> (bit_set(flood_shr(gen, prop, s), i as int) <==> caps_upto6(
                gen,
                prop,
                i as int,
                s as int,
            )),
{
}

/// Bit `i` of the upward flood marks a closed run toward lower indices.
pub proof fn lemma_flood_shl_bits(gen: u64, prop: u64, s: u64)
    by (bit_vector)
    requires
        1 <= s <= 9,
    ensures
        forall|i: u64|
            i < 64 ==> (bit_set(flood_shl(gen, prop, s), i as int) <==> caps_upto6(
                gen,
                prop,
                i as int,
                -(s as int),
            )),
{
}

/// Opponent stones eligible as run cells in direction `d`: runs along an axis
/// that moves through columns exclude the two border columns, which a shifted
/// word would otherwise wrap across.
pub open spec fn prop_mask(d: Dir) -> u64 {
    if dcol(d) == 0 {
        0xFFFF_FFFF_FFFF_FFFFu64
    } else {
        0x7E7E_7E7E_7E7E_7E7Eu64
    }
}

/// The opponent stones masked for direction `d`.
pub open spec fn prop_word(b: Board, d: Dir) -> u64 {
    b.opp & prop_mask(d)
}

/// A bit of the interior-column mask is set exactly on columns 1 to 6.
pub proof fn lemma_inner_mask_bit(t: int)
    requires
        valid_cell(t),
    ensures
        bit_set(0x7E7E_7E7E_7E7E_7E7Eu64, t) <==> 1 <= t % 8 <= 6,
{
    let j = t as u64;
    assert(((0x7E7E_7E7E_7E7E_7E7Eu64 >> j) & 1u64 == 1u64) <==> (1 <= j % 8 <= 6)) by (bit_vector)
        requires
            j < 64,
    ;
}

/// A bit of the full mask is set on every cell.
pub proof fn lemma_full_mask_bit(t: int)
    requires
        valid_cell(t),
    ensures
        bit_set(0xFFFF_FFFF_FFFF_FFFFu64, t),
{
    let j = t as u64;
    assert((0xFFFF_FFFF_FFFF_FFFFu64 >> j) & 1u64 == 1u64) by (bit_vector)
        requires
            j < 64,
    ;
}

/// A masked-opponent bit means an opponent stone, on an interior column when
/// the direction moves through columns.
pub proof fn lemma_prop_bit(b: Board, d: Dir, t: int)
    requires
        valid_cell(t),
    ensures
        bit_set(prop_word(b, d), t) <==> (bit_set(b.opp, t) && (dcol(d) == 0 || 1 <= t % 8 <= 6)),
{
    crate::bits::lemma_bit_and(b.opp, prop_mask(d), t);
    if dcol(d) == 0 {
        lemma_full_mask_bit(t);
    } else {
        lemma_inner_mask_bit(t);
    }
}

/// Row and column of a cell index both lie on the grid.
pub proof fn lemma_cell_coords(i: int)
    requires
        valid_cell(i),
    ensures
        0 <= i % 8 <= 7,
        0 <= i / 8 <= 7,
        i == 8 * (i / 8) + i % 8,
{
    vstd::arithmetic::div_mod::lemma_fundamental_div_mod(i, 8);
    vstd::arithmetic::div_mod::lemma_mod_pos_bound(i, 8);
}

/// Row and column coordinates of the cell reached by `j` in-grid steps.
pub proof fn lemma_tgt_coords(i: int, d: Dir, j: int)
    requires
        valid_cell(i),
        0 <= j,
        step_in(i, d, j),
    ensures
        valid_cell(tgt(i, d, j)),
        tgt(i, d, j) % 8 == i % 8 + j * dcol(d),
        tgt(i, d, j) / 8 == i / 8 + j * drow(d),
{
    let dr = drow(d);
    let dc = dcol(d);
    let r = i / 8 + j * dr;
    let c = i % 8 + j * dc;
    let t = tgt(i, d, j);
    vstd::arithmetic::div_mod::lemma_fundamental_div_mod(i, 8);
    assert(t == 8 * r + c) by (nonlinear_arith)
        requires
            t == i + j * (8 * dr + dc) && i == 8 * (i / 8) + i % 8 && r == i / 8 + j * dr && c == i
                % 8 + j * dc,
    ;
    vstd::arithmetic::div_mod::lemma_fundamental_div_mod_converse(t, 8, r, c);
}

/// The per-direction steps are unit steps, not both zero.
pub proof fn lemma_dir_consts(d: Dir)
    ensures
        drow(d) == -1 || drow(d) == 0 || drow(d) == 1,
        dcol(d) == -1 || dcol(d) == 0 || dcol(d) == 1,
        !(drow(d) == 0 && dcol(d) == 0),
{
}

/// A capturing run fits on one line of the board: at most six stones.
pub proof fn lemma_captures_bound(b: Board, i: int, d: Dir, k: int)
    requires
        valid_cell(i),
        captures(b, i, d, k),
    ensures
        1 <= k <= 6,
{
    let dr = drow(d);
    let dc = dcol(d);
    lemma_dir_consts(d);
    lemma_cell_coords(i);
    assert(step_in(i, d, k + 1));
    assert(k <= 6) by (nonlinear_arith)
        requires
            (dr == -1 || dr == 0 || dr == 1),
            (dc == -1 || dc == 0 || dc == 1),
            !(dr == 0 && dc == 0),
            1 <= k,
            0 <= i / 8 <= 7,
            0 <= i % 8 <= 7,
            0 <= i / 8 + (k + 1) * dr <= 7,
            0 <= i % 8 + (k + 1) * dc <= 7,
    ;
}

/// On a board whose sides are disjoint, a direction captures a run of only
/// one length.
pub proof fn lemma_captures_unique(b: Board, i: int, d: Dir, k1: int, k2: int)
    requires
        b.inv(),
        valid_cell(i),
        captures(b, i, d, k1),
        captures(b, i, d, k2),
    ensures
        k1 == k2,
{
    if k1 < k2 {
        assert(bit_set(b.me, tgt(i, d, k1 + 1)));
        lemma_opp_run_at(b, i, d, k2, k1 + 1);
        crate::bits::lemma_bit_disjoint(b.me, b.opp, tgt(i, d, k1 + 1));
    }
    if k2 < k1 {
        assert(bit_set(b.me, tgt(i, d, k2 + 1)));
        lemma_opp_run_at(b, i, d, k1, k2 + 1);
        crate::bits::lemma_bit_disjoint(b.me, b.opp, tgt(i, d, k2 + 1));
    }
}

/// One cell of an opponent run.
pub proof fn lemma_opp_run_at(b: Board, i: int, d: Dir, k: int, j: int)
    requires
        opp_run(b, i, d, k),
        1 <= j <= k,
    ensures
        step_in(i, d, j),
        bit_set(b.opp, tgt(i, d, j)),
    decreases k,
{
    if j < k {
        lemma_opp_run_at(b, i, d, k - 1, j);
    }
}



/// `run_at` spelled pointwise.
pub proof fn lemma_run_at_iff(x: u64, i: int, s: int, k: int)
    requires
        0 <= k,
    ensures
        run_at(x, i, s, k) <==> (forall|j: int| 1 <= j <= k ==> bit_set(x, #[trigger] (i + j * s))),
    decreases k,
{
    if k > 0 {
        lemma_run_at_iff(x, i, s, k - 1);
        assert(run_at(x, i, s, k) ==> bit_set(x, i + k * s));
    }
}

/// A run of masked-opponent bits lies step by step on the grid: the interior
/// columns of the mask rule out any wrap across a board edge.
pub proof fn lemma_masked_run_geom(b: Board, i: int, d: Dir, k: int)
    requires
        valid_cell(i),
        0 <= k,
        forall|j: int| 1 <= j <= k ==> bit_set(prop_word(b, d), #[trigger] (i + j * delta(d))),
    ensures
        opp_run(b, i, d, k),
        k >= 1 ==> (dcol(d) == 0 || 1 <= (i % 8 + k * dcol(d)) <= 6),
    decreases k,
{
    let dr = drow(d);
    let dc = dcol(d);
    lemma_cell_coords(i);
    if k > 0 {
        lemma_masked_run_geom(b, i, d, k - 1);
        let prev = tgt(i, d, k - 1);
        let cur = i + k * delta(d);
        assert(bit_set(prop_word(b, d), cur));
        lemma_prop_bit(b, d, cur);
        assert(step_in(i, d, k - 1)) by {
            if k - 1 >= 1 {
                lemma_opp_run_at(b, i, d, k - 1, k - 1);
            } else {
                assert(0 * dr == 0 && 0 * dc == 0) by (nonlinear_arith);
            }
        }
        lemma_tgt_coords(i, d, k - 1);
        let r0 = i / 8 + (k - 1) * dr;
        let c0 = i % 8 + (k - 1) * dc;
        assert(cur == 8 * (r0 + dr) + (c0 + dc)) by (nonlinear_arith)
            requires
                cur == i + k * (8 * dr + dc) && prev == i + (k - 1) * (8 * dr + dc) && prev == 8
                    * r0 + c0,
        ;
        assert(i / 8 + k * dr == r0 + dr && i % 8 + k * dc == c0 + dc) by (nonlinear_arith)
            requires
                r0 == i / 8 + (k - 1) * dr && c0 == i % 8 + (k - 1) * dc,
        ;
        lemma_cell_coords(cur);
        if dc == 0 {
            vstd::arithmetic::div_mod::lemma_fundamental_div_mod_converse(cur, 8, r0 + dr, c0);
            assert(step_in(i, d, k));
        } else {
            assert(1 <= cur % 8 <= 6);
            if c0 + dc == -1 {
                vstd::arithmetic::div_mod::lemma_fundamental_div_mod_converse(
                    cur,
                    8,
                    r0 + dr - 1,
                    7,
                );
                assert(false);
            } else if c0 + dc == 8 {
                vstd::arithmetic::div_mod::lemma_fundamental_div_mod_converse(
                    cur,
                    8,
                    r0 + dr + 1,
                    0,
                );
                assert(false);
            } else {
                vstd::arithmetic::div_mod::lemma_fundamental_div_mod_converse(
                    cur,
                    8,
                    r0 + dr,
                    c0 + dc,
                );
            }
            assert(step_in(i, d, k));
        }
        lemma_tgt_coords(i, d, k);
        assert(tgt(i, d, k) == cur);
        assert(bit_set(b.opp, cur));
        assert(opp_run(b, i, d, k));
        if dc != 0 {
            assert(cur % 8 == i % 8 + k * dc);
            assert(1 <= cur % 8 <= 6);
        }
    }
}

/// A closed masked run is exactly a geometric capture of the same length.
pub proof fn lemma_cap_geom(b: Board, i: int, d: Dir, k: int)
    requires
        valid_cell(i),
        1 <= k <= 6,
    ensures
        cap_at(b.me, prop_word(b, d), i, delta(d), k) <==> captures(b, i, d, k),
{
    let s = delta(d);
    let dr = drow(d);
    let dc = dcol(d);
    lemma_dir_consts(d);
    lemma_cell_coords(i);
    lemma_run_at_iff(prop_word(b, d), i, s, k);
    if cap_at(b.me, prop_word(b, d), i, s, k) {
        lemma_masked_run_geom(b, i, d, k);
        let e = i + (k + 1) * s;
        assert(bit_set(b.me, e));
        assert(step_in(i, d, k)) by {
            lemma_opp_run_at(b, i, d, k, k);
        }
        lemma_tgt_coords(i, d, k);
        let r0 = i / 8 + k * dr;
        let c0 = i % 8 + k * dc;
        assert(e == 8 * (r0 + dr) + (c0 + dc)) by (nonlinear_arith)
            requires
                e == i + (k + 1) * (8 * dr + dc) && tgt(i, d, k) == i + k * (8 * dr + dc) && tgt(
                    i,
                    d,
                    k,
                ) == 8 * r0 + c0,
        ;
        assert(i / 8 + (k + 1) * dr == r0 + dr && i % 8 + (k + 1) * dc == c0 + dc)
            by (nonlinear_arith)
            requires
                r0 == i / 8 + k * dr && c0 == i % 8 + k * dc,
        ;
        if dc == 0 {
            assert(k * dc == 0) by (nonlinear_arith)
                requires
                    dc == 0,
            ;
            assert(0 <= c0 + dc <= 7);
        } else {
            assert(1 <= c0 <= 6);
            assert(0 <= c0 + dc <= 7);
        }
        vstd::arithmetic::div_mod::lemma_fundamental_div_mod_converse(e, 8, r0 + dr, c0 + dc);
        lemma_cell_coords(e);
        assert(step_in(i, d, k + 1));
        assert(captures(b, i, d, k));
    }
    if captures(b, i, d, k) {
        assert forall|j: int| 1 <= j <= k implies bit_set(
            prop_word(b, d),
            #[trigger] (i + j * s),
        ) by {
            lemma_opp_run_at(b, i, d, k, j);
            lemma_tgt_coords(i, d, j);
            lemma_prop_bit(b, d, tgt(i, d, j));
            if dc != 0 {
                assert(step_in(i, d, k + 1));
                assert(1 <= i % 8 + j * dc <= 6) by (nonlinear_arith)
                    requires
                        (dc == -1 || dc == 1),
                        1 <= j <= k,
                        0 <= i % 8 <= 7,
                        0 <= i % 8 + (k + 1) * dc <= 7,
                ;
            }
            assert(tgt(i, d, j) == i + j * s);
        }
        assert(bit_set(b.me, i + (k + 1) * s)) by {
            assert(bit_set(b.me, tgt(i, d, k + 1)));
        }
        assert(cap_at(b.me, prop_word(b, d), i, s, k));
    }
}

/// Some closed masked run of length up to six is exactly some geometric
/// capture.
pub proof fn lemma_caps6_geom(b: Board, i: int, d: Dir)
    requires
        valid_cell(i),
    ensures
        caps_upto6(b.me, prop_word(b, d), i, delta(d)) <==> (exists|k: int| captures(b, i, d, k)),
{
    let s = delta(d);
    if caps_upto6(b.me, prop_word(b, d), i, s) {
        if cap_at(b.me, prop_word(b, d), i, s, 1) {
            lemma_cap_geom(b, i, d, 1);
        } else if cap_at(b.me, prop_word(b, d), i, s, 2) {
            lemma_cap_geom(b, i, d, 2);
        } else if cap_at(b.me, prop_word(b, d), i, s, 3) {
            lemma_cap_geom(b, i, d, 3);
        } else if cap_at(b.me, prop_word(b, d), i, s, 4) {
            lemma_cap_geom(b, i, d, 4);
        } else if cap_at(b.me, prop_word(b, d), i, s, 5) {
            lemma_cap_geom(b, i, d, 5);
        } else {
            lemma_cap_geom(b, i, d, 6);
        }
    }
    if exists|k: int| captures(b, i, d, k) {
        let k = choose|k: int| captures(b, i, d, k);
        lemma_captures_bound(b, i, d, k);
        lemma_cap_geom(b, i, d, k);
    }
}

/// The downward flood, as executable code.
fn flood_shr_x(gen: u64, prop: u64, s: u64) -> (r: u64)
    requires
        1 <= s <= 9,
    ensures
        r == flood_shr(gen, prop, s),
{
    let f1 = prop & (gen >> s);
    let f2 = f1 | (prop & (f1 >> s));
    let f3 = f2 | (prop & (f2 >> s));
    let f4 = f3 | (prop & (f3 >> s));
    let f5 = f4 | (prop & (f4 >> s));
    let f6 = f5 | (prop & (f5 >> s));
    f6 >> s
}

/// The upward flood, as executable code.
fn flood_shl_x(gen: u64, prop: u64, s: u64) -> (r: u64)
    requires
        1 <= s <= 9,
    ensures
        r == flood_shl(gen, prop, s),
{
    let f1 = prop & (gen << s);
    let f2 = f1 | (prop & (f1 << s));
    let f3 = f2 | (prop & (f2 << s));
    let f4 = f3 | (prop & (f3 << s));
    let f5 = f4 | (prop & (f4 << s));
    let f6 = f5 | (prop & (f5 << s));
    f6 << s
}

/// The masked flood for direction `d`, intersected with the empty cells,
/// marks exactly the cells from which `d` captures.
proof fn lemma_dir_bit(b: Board, d: Dir, w: u64, i: int)
    requires
        valid_cell(i),
        delta(d) > 0 ==> w == !(b.me | b.opp) & flood_shr(b.me, prop_word(b, d), delta(d) as u64),
        delta(d) < 0 ==> w == !(b.me | b.opp) & flood_shl(
            b.me,
            prop_word(b, d),
            (-delta(d)) as u64,
        ),
    ensures
        bit_set(w, i) <==> legal_in_dir(b, i, d),
{
    let s = delta(d);
    assert(s == 1 || s == -1 || s == 7 || s == -7 || s == 8 || s == -8 || s == 9 || s == -9);
    let fl = if s > 0 {
        flood_shr(b.me, prop_word(b, d), s as u64)
    } else {
        flood_shl(b.me, prop_word(b, d), (-s) as u64)
    };
    if s > 0 {
        lemma_flood_shr_bits(b.me, prop_word(b, d), s as u64);
        assert(bit_set(fl, (i as u64) as int) <==> caps_upto6(
            b.me,
            prop_word(b, d),
            (i as u64) as int,
            (s as u64) as int,
        ));
    } else {
        lemma_flood_shl_bits(b.me, prop_word(b, d), (-s) as u64);
        assert(bit_set(fl, (i as u64) as int) <==> caps_upto6(
            b.me,
            prop_word(b, d),
            (i as u64) as int,
            -(((-s) as u64) as int),
        ));
    }
    assert(bit_set(fl, i) <==> caps_upto6(b.me, prop_word(b, d), i, s));
    lemma_caps6_geom(b, i, d);
    let emp = !(b.me | b.opp);
    crate::bits::lemma_bit_and(emp, fl, i);
    crate::bits::lemma_bit_not(b.me | b.opp, i);
    crate::bits::lemma_bit_or(b.me, b.opp, i);
    assert(bit_set(emp, i) <==> (!bit_set(b.me, i) && !bit_set(b.opp, i)));
}

/// The legal-move mask: the set of empty cells from which placing a mover
/// stone captures at least one run of opponent stones.
#[verifier::rlimit(60)]
pub fn get_mobility(b: &Board) -> (m: u64)
    ensures
        m == mobility_word(*b),
{
    let gen = b.me;
    let empty = !(b.me | b.opp);
    let pe = b.opp & 0x7E7E_7E7E_7E7E_7E7Eu64;
    let pv = b.opp & 0xFFFF_FFFF_FFFF_FFFFu64;
    let m1 = empty & flood_shr_x(gen, pe, 1);
    let m2 = empty & flood_shl_x(gen, pe, 1);
    let m3 = empty & flood_shr_x(gen, pv, 8);
    let m4 = empty & flood_shl_x(gen, pv, 8);
    let m5 = empty & flood_shr_x(gen, pe, 9);
    let m6 = empty & flood_shl_x(gen, pe, 9);
    let m7 = empty & flood_shr_x(gen, pe, 7);
    let m8 = empty & flood_shl_x(gen, pe, 7);
    let m = m1 | m2 | m3 | m4 | m5 | m6 | m7 | m8;
    proof {
        assert(prop_word(*b, Dir::E) == pe);
        assert(prop_word(*b, Dir::W) == pe);
        assert(prop_word(*b, Dir::S) == pv);
        assert(prop_word(*b, Dir::N) == pv);
        assert(prop_word(*b, Dir::SE) == pe);
        assert(prop_word(*b, Dir::NW) == pe);
        assert(prop_word(*b, Dir::SW) == pe);
        assert(prop_word(*b, Dir::NE) == pe);
        assert forall|i: int| valid_cell(i) implies (bit_set(m, i) <==> is_legal(*b, i)) by {
            lemma_dir_bit(*b, Dir::E, m1, i);
            lemma_dir_bit(*b, Dir::W, m2, i);
            lemma_dir_bit(*b, Dir::S, m3, i);
            lemma_dir_bit(*b, Dir::N, m4, i);
            lemma_dir_bit(*b, Dir::SE, m5, i);
            lemma_dir_bit(*b, Dir::NW, m6, i);
            lemma_dir_bit(*b, Dir::SW, m7, i);
            lemma_dir_bit(*b, Dir::NE, m8, i);
            crate::bits::lemma_bit_or(m1, m2, i);
            crate::bits::lemma_bit_or(m1 | m2, m3, i);
            crate::bits::lemma_bit_or(m1 | m2 | m3, m4, i);
            crate::bits::lemma_bit_or(m1 | m2 | m3 | m4, m5, i);
            crate::bits::lemma_bit_or(m1 | m2 | m3 | m4 | m5, m6, i);
            crate::bits::lemma_bit_or(m1 | m2 | m3 | m4 | m5 | m6, m7, i);
            crate::bits::lemma_bit_or(m1 | m2 | m3 | m4 | m5 | m6 | m7, m8, i);
            if is_legal(*b, i) {
                let d = choose|d: Dir| legal_in_dir(*b, i, d);
                match d {
                    Dir::E => assert(bit_set(m1, i)),
                    Dir::W => assert(bit_set(m2, i)),
                    Dir::S => assert(bit_set(m3, i)),
                    Dir::N => assert(bit_set(m4, i)),
                    Dir::SE => assert(bit_set(m5, i)),
                    Dir::NW => assert(bit_set(m6, i)),
                    Dir::SW => assert(bit_set(m7, i)),
                    Dir::NE => assert(bit_set(m8, i)),
                }
            }
        }
        assert forall|i: int| valid_cell(i) implies (bit_set(m, i) <==> bit_set(
            mobility_word(*b),
            i,
        )) by {
            crate::bits::lemma_word_upto_bit(|i: int| is_legal(*b, i), 64, i);
        }
        crate::bits::lemma_word_ext(m, mobility_word(*b));
    }
    m
}

/// The direction numbered `n` in the walk order of `get_flip`.
pub open spec fn dir_spec(n: int) -> Dir {
    if n == 0 {
        Dir::E
    } else if n == 1 {
        Dir::W
    } else if n == 2 {
        Dir::S
    } else if n == 3 {
        Dir::N
    } else if n == 4 {
        Dir::SE
    } else if n == 5 {
        Dir::NW
    } else if n == 6 {
        Dir::SW
    } else {
        Dir::NE
    }
}

/// Every direction carries a walk number.
pub proof fn lemma_dir_covered(d: Dir)
    ensures
        exists|n: int| 0 <= n < 8 && dir_spec(n) == d,
{
    match d {
        Dir::E => assert(dir_spec(0) == d),
        Dir::W => assert(dir_spec(1) == d),
        Dir::S => assert(dir_spec(2) == d),
        Dir::N => assert(dir_spec(3) == d),
        Dir::SE => assert(dir_spec(4) == d),
        Dir::NW => assert(dir_spec(5) == d),
        Dir::SW => assert(dir_spec(6) == d),
        Dir::NE => assert(dir_spec(7) == d),
    }
}

fn dir_of(n: u8) -> (d: Dir)
    requires
        n < 8,
    ensures
        d == dir_spec(n as int),
{
    match n {
        0 => Dir::E,
        1 => Dir::W,
        2 => Dir::S,
        3 => Dir::N,
        4 => Dir::SE,
        5 => Dir::NW,
        6 => Dir::SW,
        _ => Dir::NE,
    }
}

fn drow_x(d: Dir) -> (r: i32)
    ensures
        r as int == drow(d),
{
    match d {
        Dir::E => 0,
        Dir::W => 0,
        Dir::S => 1,
        Dir::N => -1,
        Dir::SE => 1,
        Dir::NW => -1,
        Dir::SW => 1,
        Dir::NE => -1,
    }
}

fn dcol_x(d: Dir) -> (c: i32)
    ensures
        c as int == dcol(d),
{
    match d {
        Dir::E => 1,
        Dir::W => -1,
        Dir::S => 0,
        Dir::N => 0,
        Dir::SE => 1,
        Dir::NW => -1,
        Dir::SW => -1,
        Dir::NE => 1,
    }
}

/// Walk outward from `me_idx` in direction `d`, accumulating opponent cells;
/// a walk that ends on a mover stone captures the accumulated run.
#[verifier::rlimit(60)]
#[verifier::loop_isolation(false)]
fn flip_dir_x(b: &Board, me_idx: u8, d: Dir) -> (mask: u64)
    requires
        b.inv(),
        me_idx < 64,
    ensures
        forall|i: int|
            valid_cell(i) ==> (bit_set(mask, i) <==> flips_at_dir(*b, me_idx as int, d, i)),
{
    let ghost mv = me_idx as int;
    proof {
        lemma_cell_coords(mv);
        lemma_dir_consts(d);
    }
    let dr = drow_x(d);
    let dc = dcol_x(d);
    let r0 = (me_idx / 8) as i32;
    let c0 = (me_idx % 8) as i32;
    let mut r: i32 = r0 + dr;
    let mut c: i32 = c0 + dc;
    let mut j: i32 = 1;
    let mut run: u64 = 0;
    proof {
        assert forall|i: int| valid_cell(i) implies !bit_set(run, i) by {
            crate::bits::lemma_zero_word_bits(i);
        }
    }
    loop
        invariant
            b.inv(),
            me_idx < 64,
            mv == me_idx as int,
            r0 as int == mv / 8,
            c0 as int == mv % 8,
            dr as int == drow(d),
            dc as int == dcol(d),
            1 <= j <= 8,
            r as int == r0 as int + (j as int) * (dr as int),
            c as int == c0 as int + (j as int) * (dc as int),
            -9 <= r <= 16,
            -9 <= c <= 16,
            opp_run(*b, mv, d, j as int - 1),
            forall|i: int|
                valid_cell(i) ==> (bit_set(run, i) <==> (exists|t: int|
                    1 <= t < j && i == #[trigger] tgt(mv, d, t))),
        decreases 8 - j,
    {
        if !(0 <= r && r < 8 && 0 <= c && c < 8) {
            proof {
                assert(!step_in(mv, d, j as int));
                lemma_no_capture_blocked(*b, mv, d, j as int);
                assert forall|i: int| valid_cell(i) implies !bit_set(0u64, i) by {
                    crate::bits::lemma_zero_word_bits(i);
                }
            }
            return 0u64;
        }
        let t = (r * 8 + c) as u64;
        proof {
            assert(t as int == tgt(mv, d, j as int)) by (nonlinear_arith)
                requires
                    t as int == 8 * (r as int) + (c as int),
                    r as int == (mv / 8) + (j as int) * (drow(d)),
                    c as int == (mv % 8) + (j as int) * (dcol(d)),
                    mv == 8 * (mv / 8) + mv % 8,
                    tgt(mv, d, j as int) == mv + (j as int) * (8 * drow(d) + dcol(d)),
            ;
            assert(step_in(mv, d, j as int));
        }
        if (b.opp >> t) & 1u64 == 1u64 {
            let old_run = run;
            run = run | (1u64 << t);
            proof {
                assert(j < 8) by (nonlinear_arith)
                    requires
                        (drow(d) == -1 || drow(d) == 0 || drow(d) == 1),
                        (dcol(d) == -1 || dcol(d) == 0 || dcol(d) == 1),
                        !(drow(d) == 0 && dcol(d) == 0),
                        0 <= (mv / 8) + (j as int) * drow(d) <= 7,
                        0 <= (mv % 8) + (j as int) * dcol(d) <= 7,
                        0 <= mv / 8 <= 7,
                        0 <= mv % 8 <= 7,
                        1 <= j,
                ;
                assert forall|i: int| valid_cell(i) implies (bit_set(run, i) <==> (exists|t2: int|
                    1 <= t2 < j + 1 && i == #[trigger] tgt(mv, d, t2))) by {
                    crate::bits::lemma_bit_or(old_run, 1u64 << t, i);
                    crate::bits::lemma_bit_single(t as int, i);
                    if bit_set(run, i) {
                        if bit_set(old_run, i) {
                        } else {
                            assert(i == tgt(mv, d, j as int));
                        }
                    }
                    if exists|t2: int| 1 <= t2 < j + 1 && i == tgt(mv, d, t2) {
                        let t2 = choose|t2: int| 1 <= t2 < j + 1 && i == tgt(mv, d, t2);
                        if t2 < j {
                            assert(bit_set(old_run, i));
                        } else {
                            assert(i == tgt(mv, d, j as int) == t as int);
                        }
                    }
                }
            }
            proof {
                assert(opp_run(*b, mv, d, j as int));
            }
            r = r + dr;
            c = c + dc;
            j = j + 1;
            proof {
                assert(r as int == r0 as int + (j as int) * (dr as int) && c as int == c0 as int + (
                j as int) * (dc as int)) by (nonlinear_arith)
                    requires
                        r as int == r0 as int + ((j - 1) as int) * (dr as int) + (dr as int),
                        c as int == c0 as int + ((j - 1) as int) * (dc as int) + (dc as int),
                ;
            }
        } else if (b.me >> t) & 1u64 == 1u64 {
            if j >= 2 {
                proof {
                    assert(captures(*b, mv, d, j - 1));
                    lemma_run_is_flips(*b, mv, d, j - 1, run);
                }
                return run;
            } else {
                proof {
                    lemma_no_capture_me_first(*b, mv, d);
                    assert forall|i: int| valid_cell(i) implies !bit_set(0u64, i) by {
                        crate::bits::lemma_zero_word_bits(i);
                    }
                }
                return 0u64;
            }
        } else {
            proof {
                lemma_no_capture_blocked(*b, mv, d, j as int);
                assert forall|i: int| valid_cell(i) implies !bit_set(0u64, i) by {
                    crate::bits::lemma_zero_word_bits(i);
                }
            }
            return 0u64;
        }
    }
}

/// When the walk found the capturing run, the accumulated mask is exactly the
/// set of cells this direction flips.
proof fn lemma_run_is_flips(b: Board, mv: int, d: Dir, k: int, run: u64)
    requires
        b.inv(),
        valid_cell(mv),
        captures(b, mv, d, k),
        forall|i: int|
            valid_cell(i) ==> (bit_set(run, i) <==> (exists|t: int|
                1 <= t <= k && i == #[trigger] tgt(mv, d, t))),
    ensures
        forall|i: int| valid_cell(i) ==> (bit_set(run, i) <==> flips_at_dir(b, mv, d, i)),
{
    assert forall|i: int| valid_cell(i) implies (bit_set(run, i) <==> flips_at_dir(
        b,
        mv,
        d,
        i,
    )) by {
        if bit_set(run, i) {
            let t = choose|t: int| 1 <= t <= k && i == tgt(mv, d, t);
            assert(captures(b, mv, d, k) && 1 <= t <= k && i == tgt(mv, d, t));
            assert(flips_at_dir(b, mv, d, i));
        }
        if flips_at_dir(b, mv, d, i) {
            let (k2, t) = choose|k2: int, t: int|
                #[trigger] captures(b, mv, d, k2) && 1 <= t <= k2 && i == #[trigger] tgt(mv, d, t);
            lemma_captures_unique(b, mv, d, k, k2);
            assert(1 <= t <= k && i == tgt(mv, d, t));
        }
    }
}

/// A walk that ran off the board, or onto an empty cell, at step `j` without
/// meeting a mover stone captures nothing in this direction.
proof fn lemma_no_capture_blocked(b: Board, mv: int, d: Dir, j: int)
    requires
        b.inv(),
        valid_cell(mv),
        1 <= j,
        opp_run(b, mv, d, j - 1),
        !(step_in(mv, d, j) && bit_set(b.me, tgt(mv, d, j)) && j >= 2) && !(step_in(mv, d, j)
            && bit_set(b.opp, tgt(mv, d, j))),
    ensures
        forall|i: int| !flips_at_dir(b, mv, d, i),
{
    assert forall|i: int| !flips_at_dir(b, mv, d, i) by {
        if flips_at_dir(b, mv, d, i) {
            let (k, t) = choose|k: int, t: int|
                #[trigger] captures(b, mv, d, k) && 1 <= t <= k && i == #[trigger] tgt(mv, d, t);
            if k >= j {
                assert(opp_run(b, mv, d, k));
                lemma_opp_run_at(b, mv, d, k, j);
                assert(false);
            } else if k + 1 < j {
                assert(bit_set(b.me, tgt(mv, d, k + 1)));
                lemma_opp_run_at(b, mv, d, j - 1, k + 1);
                crate::bits::lemma_bit_disjoint(b.me, b.opp, tgt(mv, d, k + 1));
                assert(false);
            } else {
                assert(k + 1 == j);
                assert(step_in(mv, d, j) && bit_set(b.me, tgt(mv, d, j)));
                assert(j >= 2);
                assert(false);
            }
        }
    }
}

/// A walk that met a mover stone on its first step captures nothing.
proof fn lemma_no_capture_me_first(b: Board, mv: int, d: Dir)
    requires
        b.inv(),
        valid_cell(mv),
        bit_set(b.me, tgt(mv, d, 1)),
    ensures
        forall|i: int| !flips_at_dir(b, mv, d, i),
{
    assert forall|i: int| !flips_at_dir(b, mv, d, i) by {
        if flips_at_dir(b, mv, d, i) {
            let (k, t) = choose|k: int, t: int|
                #[trigger] captures(b, mv, d, k) && 1 <= t <= k && i == #[trigger] tgt(mv, d, t);
            lemma_opp_run_at(b, mv, d, k, 1);
            crate::bits::lemma_bit_disjoint(b.me, b.opp, tgt(mv, d, 1));
            assert(false);
        }
    }
}

/// The capture mask of playing at `me_idx`: every stone the move flips, in
/// all eight directions together.
#[verifier::rlimit(100)]
pub fn get_flip(b: &Board, me_idx: u8) -> (flip: u64)
    requires
        b.inv(),
        me_idx < 64,
    ensures
        flip == flip_word(*b, me_idx as int),
{
    let ghost mv = me_idx as int;
    let mut flip: u64 = 0;
    let mut n: u8 = 0;
    proof {
        assert forall|i: int| valid_cell(i) implies !bit_set(flip, i) by {
            crate::bits::lemma_zero_word_bits(i);
        }
    }
    while n < 8
        invariant
            b.inv(),
            me_idx < 64,
            mv == me_idx as int,
            n <= 8,
            forall|i: int|
                valid_cell(i) ==> (bit_set(flip, i) <==> (exists|dn: int|
                    0 <= dn < n && flips_at_dir(*b, mv, #[trigger] dir_spec(dn), i))),
        decreases 8 - n,
    {
        let d = dir_of(n);
        let mask = flip_dir_x(b, me_idx, d);
        let old_flip = flip;
        flip = flip | mask;
        proof {
            assert forall|i: int| valid_cell(i) implies (bit_set(flip, i) <==> (exists|dn: int|
                0 <= dn < n + 1 && flips_at_dir(*b, mv, #[trigger] dir_spec(dn), i))) by {
                crate::bits::lemma_bit_or(old_flip, mask, i);
                if bit_set(flip, i) {
                    if bit_set(old_flip, i) {
                    } else {
                        assert(flips_at_dir(*b, mv, dir_spec(n as int), i));
                    }
                }
                if exists|dn: int| 0 <= dn < n + 1 && flips_at_dir(*b, mv, dir_spec(dn), i) {
                    let dn = choose|dn: int|
                        0 <= dn < n + 1 && flips_at_dir(*b, mv, dir_spec(dn), i);
                    if dn < n {
                        assert(bit_set(old_flip, i));
                    } else {
                        assert(flips_at_dir(*b, mv, dir_spec(n as int), i));
                        assert(bit_set(mask, i));
                    }
                }
            }
        }
        n = n + 1;
    }
    proof {
        assert forall|i: int| valid_cell(i) implies (bit_set(flip, i) <==> bit_set(
            flip_word(*b, mv),
            i,
        )) by {
            crate::bits::lemma_word_upto_bit(|i: int| flips_at(*b, mv, i), 64, i);
            if bit_set(flip, i) {
                let dn = choose|dn: int| 0 <= dn < 8 && flips_at_dir(*b, mv, dir_spec(dn), i);
                assert(flips_at(*b, mv, i));
            }
            if flips_at(*b, mv, i) {
                let d = choose|d: Dir| flips_at_dir(*b, mv, d, i);
                lemma_dir_covered(d);
                let dn = choose|dn: int| 0 <= dn < 8 && dir_spec(dn) == d;
                assert(flips_at_dir(*b, mv, dir_spec(dn), i));
            }
        }
        assert forall|i: int| !valid_cell(i) implies !bit_set(flip, i) && !bit_set(
            flip_word(*b, mv),
            i,
        ) by {
        }
        crate::bits::lemma_word_ext(flip, flip_word(*b, mv));
    }
    flip
}

/// Every flipped stone is an opponent stone.
pub proof fn lemma_flips_are_opp(b: Board, mv: int, i: int)
    requires
        valid_cell(i),
        flips_at(b, mv, i),
    ensures
        bit_set(b.opp, i),
{
    let d = choose|d: Dir| flips_at_dir(b, mv, d, i);
    let (k, t) = choose|k: int, t: int|
        #[trigger] captures(b, mv, d, k) && 1 <= t <= k && i == #[trigger] tgt(mv, d, t);
    lemma_opp_run_at(b, mv, d, k, t);
}

/// A legal move lands on an empty cell of the board.
pub proof fn lemma_legal_empty(b: Board, mv: int)
    requires
        is_legal(b, mv),
    ensures
        empty_cell(b, mv),
{
    let d = choose|d: Dir| legal_in_dir(b, mv, d);
}

/// Applying a legal move keeps the two sides disjoint.
pub proof fn lemma_apply_inv(b: Board, mv: int)
    requires
        b.inv(),
        is_legal(b, mv),
    ensures
        apply_spec(b, mv).inv(),
{
    lemma_legal_empty(b, mv);
    let f = flip_word(b, mv);
    let nb = apply_spec(b, mv);
    assert forall|i: int| valid_cell(i) implies !(bit_set(nb.me, i) && bit_set(nb.opp, i)) by {
        crate::bits::lemma_bit_and_not(b.opp, f, i);
        crate::bits::lemma_bit_or(b.me, f, i);
        crate::bits::lemma_bit_or(b.me | f, 1u64 << (mv as u64), i);
        crate::bits::lemma_bit_single(mv, i);
        crate::bits::lemma_bit_disjoint(b.me, b.opp, i);
    }
    crate::bits::lemma_word_disjoint_from_bits(nb.me, nb.opp);
}

/// Place a mover stone: the flipped stones and the new stone join the mover,
/// and the sides swap so that the opponent moves next.
pub fn put(b: &Board, me_idx: u8) -> (nb: Board)
    requires
        b.inv(),
        is_legal(*b, me_idx as int),
    ensures
        nb == apply_spec(*b, me_idx as int),
        nb.inv(),
{
    proof {
        lemma_legal_empty(*b, me_idx as int);
    }
    let flip = get_flip(b, me_idx);
    let nb = Board { me: b.opp & !flip, opp: b.me | flip | (1u64 << (me_idx as u64)) };
    proof {
        lemma_apply_inv(*b, me_idx as int);
    }
    nb
}

/// The legal moves of `mask`, lowest cell first.
pub fn moves_of(mask: u64) -> (moves: Vec<u8>)
    ensures
        forall|t: int| 0 <= t < moves@.len() ==> bit_set(mask, #[trigger] (moves@[t] as int)),
        forall|i: int|
            bit_set(mask, i) ==> exists|t: int| 0 <= t < moves@.len() && moves@[t] as int == i,
        forall|t1: int, t2: int|
            0 <= t1 < t2 < moves@.len() ==> moves@[t1] < moves@[t2],
        moves@.len() == crate::bits::count_upto(mask, 64),
{
    let mut moves: Vec<u8> = Vec::new();
    let mut i: u8 = 0;
    while i < 64
        invariant
            i <= 64,
            forall|t: int| 0 <= t < moves@.len() ==> bit_set(mask, #[trigger] (moves@[t] as int)),
            forall|j: int|
                0 <= j < i ==> (bit_set(mask, j) ==> exists|t: int|
                    0 <= t < moves@.len() && moves@[t] as int == j),
            forall|t: int| 0 <= t < moves@.len() ==> moves@[t] < i,
            forall|t1: int, t2: int|
                0 <= t1 < t2 < moves@.len() ==> moves@[t1] < moves@[t2],
            moves@.len() == crate::bits::count_upto(mask, i as int),
        decreases 64 - i,
    {
        if (mask >> (i as u64)) & 1u64 == 1u64 {
            let ghost prev = moves@;
            moves.push(i);
            proof {
                assert(bit_set(mask, i as int));
                assert(moves@.last() == i);
                assert forall|j: int| 0 <= j < i + 1 && bit_set(mask, j) implies exists|t: int|
                    0 <= t < moves@.len() && moves@[t] as int == j by {
                    if j < i {
                        let t0 = choose|t0: int| 0 <= t0 < prev.len() && prev[t0] as int == j;
                        assert(moves@[t0] as int == j);
                    } else {
                        assert(moves@[moves@.len() - 1] as int == i as int);
                    }
                }
            }
        } else {
            proof {
                assert(!bit_set(mask, i as int));
            }
        }
        i = i + 1;
    }
    moves
}

/// The position reached from `b` by a line of moves and passes: an entry
/// holding a cell applies that move, an empty entry passes the turn.
pub open spec fn play_from(b: Board, line: Seq<Option<u8>>) -> Board
    decreases line.len(),
{
    if line.len() == 0 {
        b
    } else {
        match line.last() {
            Some(mv) => apply_spec(play_from(b, line.drop_last()), mv as int),
            None => pass_spec(play_from(b, line.drop_last())),
        }
    }
}

/// Every entry of the line is playable where it stands: a move is legal in
/// its position, and a pass happens only for a side without a move.
pub open spec fn line_playable(b: Board, line: Seq<Option<u8>>) -> bool
    decreases line.len(),
{
    line.len() == 0 || (line_playable(b, line.drop_last()) && (match line.last() {
        Some(mv) => is_legal(play_from(b, line.drop_last()), mv as int),
        None => mobility_word(play_from(b, line.drop_last())) == 0,
    }))
}

/// The position reached from the starting layout by a line of moves.
pub open spec fn play_line(moves: Seq<u8>) -> Board
    decreases moves.len(),
{
    if moves.len() == 0 {
        crate::board::initial_board()
    } else {
        apply_spec(play_line(moves.drop_last()), moves.last() as int)
    }
}

/// Every move of the line is legal in the position where it is played.
pub open spec fn line_legal(moves: Seq<u8>) -> bool
    decreases moves.len(),
{
    moves.len() == 0 || (line_legal(moves.drop_last()) && is_legal(
        play_line(moves.drop_last()),
        moves.last() as int,
    ))
}

/// Every position reachable from the starting layout by legal moves keeps
/// its two sides disjoint: no cell is ever occupied twice.
pub proof fn lemma_reachable_inv(moves: Seq<u8>)
    requires
        line_legal(moves),
    ensures
        play_line(moves).inv(),
    decreases moves.len(),
{
    if moves.len() == 0 {
        assert((1u64 << 27) & ((1u64 << 28) | (7u64 << 35)) == 0) by (bit_vector);
    } else {
        lemma_reachable_inv(moves.drop_last());
        lemma_apply_inv(play_line(moves.drop_last()), moves.last() as int);
    }
}

/// Move accounting: a move adds one stone to the board, and the side that
/// moved now owns its old stones, the flipped stones and the placed stone.
pub proof fn lemma_move_accounting(b: Board, mv: int)
    requires
        b.inv(),
        is_legal(b, mv),
    ensures
        pop_count(apply_spec(b, mv).me | apply_spec(b, mv).opp) == pop_count(b.me | b.opp) + 1,
        pop_count(apply_spec(b, mv).opp) == pop_count(b.me) + 1 + pop_count(flip_word(b, mv)),
{
    lemma_legal_empty(b, mv);
    let f = flip_word(b, mv);
    let one = 1u64 << (mv as u64);
    let nb = apply_spec(b, mv);
    assert forall|i: int| valid_cell(i) implies (bit_set(f, i) ==> bit_set(b.opp, i)) by {
        crate::bits::lemma_word_upto_bit(|i: int| flips_at(b, mv, i), 64, i);
        if bit_set(f, i) {
            lemma_flips_are_opp(b, mv, i);
        }
    }
    // The occupied cells afterwards are the occupied cells plus the move.
    assert forall|i: int| valid_cell(i) implies (bit_set(nb.me | nb.opp, i) <==> bit_set(
        (b.me | b.opp) | one,
        i,
    )) by {
        crate::bits::lemma_bit_or(nb.me, nb.opp, i);
        crate::bits::lemma_bit_and_not(b.opp, f, i);
        crate::bits::lemma_bit_or(b.me, f, i);
        crate::bits::lemma_bit_or(b.me | f, one, i);
        crate::bits::lemma_bit_or(b.me, b.opp, i);
        crate::bits::lemma_bit_or(b.me | b.opp, one, i);
        crate::bits::lemma_bit_single(mv, i);
    }
    crate::bits::lemma_word_ext(nb.me | nb.opp, (b.me | b.opp) | one);
    assert((b.me | b.opp) & one == 0) by {
        crate::bits::lemma_bit_or(b.me, b.opp, mv);
        crate::bits::lemma_single_disjoint(b.me | b.opp, mv);
    }
    crate::bits::lemma_count_or_disjoint(b.me | b.opp, one, 64);
    assert forall|i: int| valid_cell(i) implies (bit_set(one, i) <==> i == mv) by {
        crate::bits::lemma_bit_single(mv, i);
    }
    crate::bits::lemma_count_single(one, mv, 64);
    // The mover handed the turn over: its stones are now the opponent word.
    assert(b.me & f == 0) by {
        assert forall|i: int| valid_cell(i) implies !(bit_set(b.me, i) && bit_set(f, i)) by {
            crate::bits::lemma_bit_disjoint(b.me, b.opp, i);
        }
        crate::bits::lemma_word_disjoint_from_bits(b.me, f);
    }
    assert((b.me | f) & one == 0) by {
        assert(!bit_set(f, mv)) by {
            crate::bits::lemma_word_upto_bit(|i: int| flips_at(b, mv, i), 64, mv);
            if flips_at(b, mv, mv) {
                lemma_flips_are_opp(b, mv, mv);
            }
        }
        crate::bits::lemma_bit_or(b.me, f, mv);
        crate::bits::lemma_single_disjoint(b.me | f, mv);
    }
    crate::bits::lemma_count_or_disjoint(b.me, f, 64);
    crate::bits::lemma_count_or_disjoint(b.me | f, one, 64);
}


} // verus!
