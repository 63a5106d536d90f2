//! Bitboards: a `u64` read as a set of squares, bit `i` standing for square `i`.

use vstd::prelude::*;
use vstd::std_specs::bits::axiom_u64_trailing_zeros;

verus! {

/// Whether square `i` belongs to the bitboard `b`. No square outside `0..64` belongs to any.
pub open spec fn bit(b: u64, i: int) -> bool {
    0 <= i < 64 && (b >> (i as u64)) & 1u64 == 1u64
}

/// The bitboard that holds square `i` alone.
pub open spec fn single(i: int) -> u64 {
    1u64 << (i as u64)
}

/// Number of squares below `n` that belong to `b`.
pub open spec fn count_below(b: u64, n: int) -> int
    decreases n,
{
    if n <= 0 {
        0
    } else {
        count_below(b, n - 1) + if bit(b, n - 1) { 1int } else { 0int }
    }
}

/// Number of squares in `b`.
pub open spec fn popcount(b: u64) -> int {
    count_below(b, 64)
}

proof fn bv_zero(i: u64)
    by (bit_vector)
    requires
        i < 64,
    ensures
        (0u64 >> i) & 1u64 == 0u64,
{
}

proof fn bv_single(i: u64, j: u64)
    by (bit_vector)
    requires
        i < 64,
        j < 64,
    ensures
        (((1u64 << i) >> j) & 1u64 == 1u64) == (i == j),
{
}

proof fn bv_or(a: u64, b: u64, j: u64)
    by (bit_vector)
    requires
        j < 64,
    ensures
        (((a | b) >> j) & 1u64 == 1u64) == (((a >> j) & 1u64 == 1u64) || ((b >> j) & 1u64 == 1u64)),
{
}

proof fn bv_and(a: u64, b: u64, j: u64)
    by (bit_vector)
    requires
        j < 64,
    ensures
        (((a & b) >> j) & 1u64 == 1u64) == (((a >> j) & 1u64 == 1u64) && ((b >> j) & 1u64 == 1u64)),
{
}

proof fn bv_not(a: u64, j: u64)
    by (bit_vector)
    requires
        j < 64,
    ensures
        (((!a) >> j) & 1u64 == 1u64) == !((a >> j) & 1u64 == 1u64),
{
}

proof fn bv_shl1(a: u64, j: u64)
    by (bit_vector)
    requires
        j < 64,
    ensures
        (((a << 1u64) >> j) & 1u64 == 1u64) == (j >= 1 && ((a >> ((j - 1) as u64)) & 1u64 == 1u64)),
{
}

proof fn bv_shr1(a: u64, j: u64)
    by (bit_vector)
    requires
        j < 64,
    ensures
        (((a >> 1u64) >> j) & 1u64 == 1u64) == (j < 63 && ((a >> ((j + 1) as u64)) & 1u64 == 1u64)),
{
}

/// The empty bitboard holds no square.
pub proof fn lemma_bit_zero(i: int)
    ensures
        !bit(0, i),
{
    if 0 <= i < 64 {
        bv_zero(i as u64);
    }
}

/// `single(i)` holds square `i` and no other.
pub proof fn lemma_bit_single(i: int, j: int)
    requires
        0 <= i < 64,
    ensures
        bit(single(i), j) == (i == j),
{
    if 0 <= j < 64 {
        bv_single(i as u64, j as u64);
    }
}

/// Union of bitboards.
pub proof fn lemma_bit_or(a: u64, b: u64, j: int)
    ensures
        bit(a | b, j) == (bit(a, j) || bit(b, j)),
{
    if 0 <= j < 64 {
        bv_or(a, b, j as u64);
    }
}

/// Intersection of bitboards.
pub proof fn lemma_bit_and(a: u64, b: u64, j: int)
    ensures
        bit(a & b, j) == (bit(a, j) && bit(b, j)),
{
    if 0 <= j < 64 {
        bv_and(a, b, j as u64);
    }
}

/// Complement of a bitboard, within the board.
pub proof fn lemma_bit_not(a: u64, j: int)
    ensures
        bit(!a, j) == (0 <= j < 64 && !bit(a, j)),
{
    if 0 <= j < 64 {
        bv_not(a, j as u64);
    }
}

/// Shifting a bitboard up by one moves every square to the next index.
pub proof fn lemma_bit_shl1(a: u64, j: int)
    ensures
        bit(a << 1u64, j) == (1 <= j < 64 && bit(a, j - 1)),
{
    if 0 <= j < 64 {
        bv_shl1(a, j as u64);
    }
}

/// Shifting a bitboard down by one moves every square to the previous index.
pub proof fn lemma_bit_shr1(a: u64, j: int)
    ensures
        bit(a >> 1u64, j) == (0 <= j < 63 && bit(a, j + 1)),
{
    if 0 <= j < 64 {
        bv_shr1(a, j as u64);
    }
}

/// The bitboard `b` without square `i`.
pub fn clear_bit(b: u64, i: usize) -> (r: u64)
    requires
        i < 64,
    ensures
        forall|j: int| #[trigger] bit(r, j) == (bit(b, j) && j != i),
{
    let r = b & !(1u64 << (i as u64));
    assert forall|j: int| #[trigger] bit(r, j) == (bit(b, j) && j != i) by {
        lemma_bit_and(b, !single(i as int), j);
        lemma_bit_not(single(i as int), j);
        lemma_bit_single(i as int, j);
    }
    r
}

/// The bitboard `b` with square `i` added.
pub fn set_bit(b: u64, i: usize) -> (r: u64)
    requires
        i < 64,
    ensures
        r == b | single(i as int),
        forall|j: int| #[trigger] bit(r, j) == (bit(b, j) || j == i),
{
    let r = b | (1u64 << (i as u64));
    assert forall|j: int| #[trigger] bit(r, j) == (bit(b, j) || j == i) by {
        lemma_bit_or(b, single(i as int), j);
        lemma_bit_single(i as int, j);
    }
    r
}

/// The lowest square of a bitboard that is not empty.
pub fn lowest(b: u64) -> (i: usize)
    requires
        b != 0,
    ensures
        i < 64,
        bit(b, i as int),
        forall|j: int| 0 <= j < i ==> !bit(b, j),
{
    proof {
        axiom_u64_trailing_zeros(b);
    }
    let t = b.trailing_zeros();
    assert forall|j: int| 0 <= j < t implies !bit(b, j) by {
        let ju = j as u64;
        assert((b >> ju) & 1u64 == 0u64);
    }
    t as usize
}

/// Two bitboards that differ in square `i` alone differ by one in their count.
pub proof fn lemma_count_without(a: u64, b: u64, i: int, n: int)
    requires
        0 <= n <= 64,
        0 <= i < 64,
        bit(a, i),
        forall|j: int| #[trigger] bit(b, j) == (bit(a, j) && j != i),
    ensures
        count_below(a, n) == count_below(b, n) + if i < n { 1int } else { 0int },
    decreases n,
{
    if n > 0 {
        lemma_count_without(a, b, i, n - 1);
    }
}

/// The count of the empty bitboard is zero, and no count exceeds the number of squares looked at.
pub proof fn lemma_count_bounds(b: u64, n: int)
    requires
        0 <= n <= 64,
    ensures
        0 <= count_below(b, n) <= n,
        b == 0 ==> count_below(b, n) == 0,
    decreases n,
{
    if n > 0 {
        lemma_count_bounds(b, n - 1);
        lemma_bit_zero(n - 1);
    }
}

/// Number of squares in `b`.
pub fn count_bits(b: u64) -> (n: u32)
    ensures
        n == popcount(b),
        n <= 64,
{
    let mut rest: u64 = b;
    let mut n: u32 = 0;
    proof {
        lemma_count_bounds(b, 64);
    }
    while rest != 0
        invariant
            n + popcount(rest) == popcount(b),
            0 <= popcount(b) <= 64,
        decreases popcount(rest),
    {
        let i: usize = lowest(rest);
        let next: u64 = clear_bit(rest, i);
        proof {
            lemma_count_without(rest, next, i as int, 64);
            lemma_count_bounds(next, 64);
        }
        rest = next;
        n = n + 1;
    }
    proof {
        lemma_count_bounds(rest, 64);
    }
    n
}

/// A bitboard that is not empty holds a square.
pub proof fn lemma_nonzero_bit(a: u64)
    requires
        a != 0,
    ensures
        exists|i: int| bit(a, i),
{
    axiom_u64_trailing_zeros(a);
    let t = vstd::std_specs::bits::u64_trailing_zeros(a);
    assert(bit(a, t as int));
}

/// Whether two bitboards share a square.
pub fn meets(a: u64, b: u64) -> (r: bool)
    ensures
        r == exists|i: int| bit(a, i) && bit(b, i),
{
    let both = a & b;
    proof {
        if both != 0 {
            lemma_nonzero_bit(both);
            let i = choose|i: int| bit(both, i);
            lemma_bit_and(a, b, i);
        } else {
            assert forall|i: int| !(bit(a, i) && bit(b, i)) by {
                lemma_bit_and(a, b, i);
                lemma_bit_zero(i);
            }
        }
    }
    both != 0
}

/// The bitboard of the squares below `n` that satisfy `f`.
pub open spec fn mask_of(f: spec_fn(int) -> bool, n: int) -> u64
    decreases n,
{
    if n <= 0 {
        0
    } else if f(n - 1) {
        mask_of(f, n - 1) | single(n - 1)
    } else {
        mask_of(f, n - 1)
    }
}

/// `mask_of(f, n)` holds exactly the squares below `n` that satisfy `f`.
pub proof fn lemma_mask_of(f: spec_fn(int) -> bool, n: int, i: int)
    requires
        0 <= n <= 64,
    ensures
        bit(mask_of(f, n), i) == (0 <= i < n && f(i)),
    decreases n,
{
    if n > 0 {
        lemma_mask_of(f, n - 1, i);
        lemma_bit_or(mask_of(f, n - 1), single(n - 1), i);
        lemma_bit_single(n - 1, i);
    } else {
        lemma_bit_zero(i);
    }
}

} // verus!
