//! Bit-level model of 64-cell bitboards: per-cell membership, population
//! count, and the lemmas that connect word operations to cell predicates.
use vstd::prelude::*;

verus! {

/// True when `i` is a cell index of the 8x8 board.
pub open spec fn valid_cell(i: int) -> bool {
    0 <= i < 64
}

/// True when bit `i` of the bitboard `x` is set.
pub open spec fn bit_set(x: u64, i: int) -> bool {
    valid_cell(i) && (x >> (i as u64)) & 1u64 == 1u64
}

/// Number of set bits of `x` among the indices `0 .. n`.
pub open spec fn count_upto(x: u64, n: int) -> int
    decreases n,
{
    if n <= 0 {
        0
    } else {
        count_upto(x, n - 1) + if bit_set(x, n - 1) {
            1int
        } else {
            0int
        }
    }
}

/// Number of set bits of a bitboard: the count of occupied cells.
pub open spec fn pop_count(x: u64) -> int {
    count_upto(x, 64)
}

/// The bitboard whose set bits below `n` are exactly the indices where `f` holds.
pub open spec fn word_upto(f: spec_fn(int) -> bool, n: int) -> u64
    decreases n,
{
    if n <= 0 {
        0u64
    } else {
        word_upto(f, n - 1) | (if f(n - 1) {
            1u64 << ((n - 1) as u64)
        } else {
            0u64
        })
    }
}

/// A bit of a union is set exactly when it is set on either side.
pub proof fn lemma_bit_or(a: u64, b: u64, i: int)
    requires
        valid_cell(i),
    ensures
        bit_set(a | b, i) <==> (bit_set(a, i) || bit_set(b, i)),
{
    let j = i as u64;
    assert(((a | b) >> j) & 1u64 == 1u64 <==> ((a >> j) & 1u64 == 1u64 || (b >> j) & 1u64 == 1u64))
        by (bit_vector);
}

/// A bit of an intersection is set exactly when it is set on both sides.
pub proof fn lemma_bit_and(a: u64, b: u64, i: int)
    requires
        valid_cell(i),
    ensures
        bit_set(a & b, i) <==> (bit_set(a, i) && bit_set(b, i)),
{
    let j = i as u64;
    assert(((a & b) >> j) & 1u64 == 1u64 <==> ((a >> j) & 1u64 == 1u64 && (b >> j) & 1u64 == 1u64))
        by (bit_vector);
}

/// A bit of `a & !b` is set exactly when it is set in `a` and clear in `b`.
pub proof fn lemma_bit_and_not(a: u64, b: u64, i: int)
    requires
        valid_cell(i),
    ensures
        bit_set(a & !b, i) <==> (bit_set(a, i) && !bit_set(b, i)),
{
    let j = i as u64;
    assert(((a & !b) >> j) & 1u64 == 1u64 <==> ((a >> j) & 1u64 == 1u64 && !((b >> j) & 1u64
        == 1u64))) by (bit_vector);
}

/// A bit of a complement is set exactly when the word has it clear.
pub proof fn lemma_bit_not(a: u64, i: int)
    requires
        valid_cell(i),
    ensures
        bit_set(!a, i) <==> !bit_set(a, i),
{
    let j = i as u64;
    assert(((!a) >> j) & 1u64 == 1u64 <==> !((a >> j) & 1u64 == 1u64)) by (bit_vector)
        requires
            j < 64,
    ;
}

/// The single-bit word `1 << k` has exactly bit `k` set.
pub proof fn lemma_bit_single(k: int, i: int)
    requires
        valid_cell(k),
        valid_cell(i),
    ensures
        bit_set(1u64 << (k as u64), i) <==> i == k,
{
    let j = i as u64;
    let l = k as u64;
    assert(((1u64 << l) >> j) & 1u64 == 1u64 <==> j == l) by (bit_vector)
        requires
            j < 64 && l < 64,
    ;
}

/// Disjoint words share no set bit.
pub proof fn lemma_bit_disjoint(a: u64, b: u64, i: int)
    requires
        a & b == 0,
        valid_cell(i),
    ensures
        !(bit_set(a, i) && bit_set(b, i)),
{
    let j = i as u64;
    assert(!((a >> j) & 1u64 == 1u64 && (b >> j) & 1u64 == 1u64)) by (bit_vector)
        requires
            a & b == 0,
    ;
}

/// Two words with the same bits are equal.
pub proof fn lemma_word_ext(a: u64, b: u64)
    requires
        forall|i: int| valid_cell(i) ==> (bit_set(a, i) <==> bit_set(b, i)),
    ensures
        a == b,
{
    if a != b {
        let x = a ^ b;
        assert(x != 0) by (bit_vector)
            requires
                x == a ^ b && a != b,
        ;
        let t = vstd::std_specs::bits::u64_trailing_zeros(x);
        vstd::std_specs::bits::axiom_u64_trailing_zeros(x);
        let j = t as u64;
        assert(j < 64);
        assert((x >> j) & 1u64 == 1u64);
        assert(!(((a >> j) & 1u64 == 1u64) <==> ((b >> j) & 1u64 == 1u64))) by (bit_vector)
            requires
                x == a ^ b && (x >> j) & 1u64 == 1u64,
        ;
        assert(bit_set(a, j as int) <==> bit_set(b, j as int));
        assert(false);
    }
}

/// A non-zero word has a set bit.
pub proof fn lemma_word_nonzero(x: u64)
    requires
        x != 0,
    ensures
        exists|i: int| bit_set(x, i),
{
    let t = vstd::std_specs::bits::u64_trailing_zeros(x);
    vstd::std_specs::bits::axiom_u64_trailing_zeros(x);
    assert(bit_set(x, t as int));
}

/// The zero word has no set bit.
pub proof fn lemma_zero_word_bits(i: int)
    ensures
        !bit_set(0u64, i),
{
    if valid_cell(i) {
        let j = i as u64;
        assert((0u64 >> j) & 1u64 == 0u64) by (bit_vector);
    }
}

/// A word with no bit in common with a single-bit word stays clear of it.
pub proof fn lemma_single_disjoint(x: u64, k: int)
    requires
        valid_cell(k),
        !bit_set(x, k),
    ensures
        x & (1u64 << (k as u64)) == 0,
{
    let l = k as u64;
    assert((x >> l) & 1u64 != 1u64 ==> x & (1u64 << l) == 0) by (bit_vector)
        requires
            l < 64,
    ;
}

/// Words that share no set bit intersect to zero.
pub proof fn lemma_word_disjoint_from_bits(a: u64, b: u64)
    requires
        forall|i: int| valid_cell(i) ==> !(bit_set(a, i) && bit_set(b, i)),
    ensures
        a & b == 0,
{
    assert forall|i: int| valid_cell(i) implies (bit_set(a & b, i) <==> bit_set(0u64, i)) by {
        lemma_bit_and(a, b, i);
        lemma_zero_word_bits(i);
    }
    lemma_word_ext(a & b, 0u64);
}

/// A word holding exactly one bit counts to one.
pub proof fn lemma_count_single(x: u64, k: int, n: int)
    requires
        valid_cell(k),
        0 <= n <= 64,
        forall|i: int| valid_cell(i) ==> (bit_set(x, i) <==> i == k),
    ensures
        count_upto(x, n) == if k < n {
            1int
        } else {
            0int
        },
    decreases n,
{
    if n > 0 {
        lemma_count_single(x, k, n - 1);
    }
}

/// Two distinct set bits below `n` count at least twice.
pub proof fn lemma_count_two(x: u64, i: int, j: int, n: int)
    requires
        bit_set(x, i),
        bit_set(x, j),
        i < j < n,
    ensures
        count_upto(x, n) >= 2,
    decreases n,
{
    if j < n - 1 {
        lemma_count_two(x, i, j, n - 1);
    } else {
        lemma_count_positive(x, i, n - 1);
    }
}

/// The count of set bits below `n` lies between 0 and `n`.
pub proof fn lemma_count_upto_bounds(x: u64, n: int)
    requires
        0 <= n,
    ensures
        0 <= count_upto(x, n) <= n,
    decreases n,
{
    if n > 0 {
        lemma_count_upto_bounds(x, n - 1);
    }
}

/// Counting a disjoint union adds the two counts.
pub proof fn lemma_count_or_disjoint(a: u64, b: u64, n: int)
    requires
        a & b == 0,
        n <= 64,
    ensures
        count_upto(a | b, n) == count_upto(a, n) + count_upto(b, n),
    decreases n,
{
    if n > 0 {
        lemma_count_or_disjoint(a, b, n - 1);
        lemma_bit_or(a, b, n - 1);
        lemma_bit_disjoint(a, b, n - 1);
    }
}

/// A word and its complement split the cells between them.
pub proof fn lemma_count_complement(x: u64, n: int)
    requires
        0 <= n <= 64,
    ensures
        count_upto(x, n) + count_upto(!x, n) == n,
    decreases n,
{
    if n > 0 {
        lemma_count_complement(x, n - 1);
        lemma_bit_not(x, n - 1);
    }
}

/// A set bit below `n` makes the count below `n` positive.
pub proof fn lemma_count_positive(x: u64, i: int, n: int)
    requires
        bit_set(x, i),
        i < n,
    ensures
        count_upto(x, n) >= 1,
    decreases n,
{
    if i < n - 1 {
        lemma_count_positive(x, i, n - 1);
    } else {
        lemma_count_upto_bounds(x, n - 1);
    }
}

/// A word with no set bits counts to zero.
pub proof fn lemma_count_empty(x: u64, n: int)
    requires
        forall|i: int| 0 <= i < n ==> !bit_set(x, i),
    ensures
        count_upto(x, n) == 0,
    decreases n,
{
    if n > 0 {
        lemma_count_empty(x, n - 1);
    }
}

/// The word has zero population count exactly when it is zero.
pub proof fn lemma_pop_count_zero(x: u64)
    ensures
        pop_count(x) == 0 <==> x == 0,
{
    if x == 0 {
        assert forall|i: int| 0 <= i < 64 implies !bit_set(0u64, i) by {
            lemma_zero_word_bits(i);
        }
        lemma_count_empty(0u64, 64);
    } else {
        lemma_word_nonzero(x);
        let i = choose|i: int| bit_set(x, i);
        lemma_count_positive(x, i, 64);
    }
}

/// `word_upto(f, n)` has exactly the bits below `n` where `f` holds.
pub proof fn lemma_word_upto_bit(f: spec_fn(int) -> bool, n: int, i: int)
    requires
        n <= 64,
    ensures
        bit_set(word_upto(f, n), i) <==> (0 <= i < n && f(i)),
    decreases n,
{
    if n <= 0 {
        lemma_zero_word_bits(i);
    } else {
        lemma_word_upto_bit(f, n - 1, i);
        let w = word_upto(f, n - 1);
        let one = 1u64 << ((n - 1) as u64);
        if valid_cell(i) {
            if f(n - 1) {
                lemma_bit_or(w, one, i);
                lemma_bit_single(n - 1, i);
            } else {
                lemma_bit_or(w, 0u64, i);
                lemma_zero_word_bits(i);
            }
        } else {
            assert(!bit_set(word_upto(f, n), i));
        }
    }
}

/// Count the set bits of a bitboard.
pub fn popcount(x: u64) -> (n: u32)
    ensures
        n == pop_count(x),
{
    let mut n: u32 = 0;
    let mut i: u64 = 0;
    while i < 64
        invariant
            0 <= i <= 64,
            n == count_upto(x, i as int),
            n <= i,
        decreases 64 - i,
    {
        let b = (x >> i) & 1u64;
        proof {
            assert((x >> i) & 1u64 == 1u64 || (x >> i) & 1u64 == 0u64) by (bit_vector);
        }
        n = n + b as u32;
        i = i + 1;
    }
    n
}

/// Find the lowest set bit of a non-zero word.
pub fn lowest_bit(x: u64) -> (r: u8)
    requires
        x != 0,
    ensures
        bit_set(x, r as int),
        forall|i: int| 0 <= i < r ==> !bit_set(x, i),
{
    let mut i: u8 = 0;
    loop
        invariant
            i < 64,
            x != 0,
            forall|j: int| 0 <= j < i ==> !bit_set(x, j),
        decreases 64 - i,
    {
        if (x >> (i as u64)) & 1u64 == 1u64 {
            return i;
        }
        proof {
            if i as int == 63 {
                assert forall|j: int| 0 <= j < 64 implies !bit_set(x, j) by {
                    if j < 63 {
                    } else {
                        assert(!bit_set(x, 63));
                    }
                }
                assert forall|j: int| valid_cell(j) implies !bit_set(0u64, j) by {
                    lemma_zero_word_bits(j);
                }
                lemma_word_ext(x, 0u64);
                assert(false);
            }
        }
        i = i + 1;
    }
}

} // verus!
