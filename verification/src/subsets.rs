//! The subsets of a set of squares, in the order of their numbers.
use vstd::arithmetic::power2::*;
use vstd::prelude::*;
use vstd::std_specs::bits::*;

use crate::bits;

verus! {

/// Whether every square of `a` is a square of `mask`.
pub open spec fn is_subset(a: u64, mask: u64) -> bool {
    a & mask == a
}

/// The number of the subset `a` of `mask`, as far as squares below `n` count: its squares are read
/// as binary digits, the lowest square of `mask` being the lowest digit.
pub open spec fn rank_below(a: u64, mask: u64, n: nat) -> nat
    decreases n,
{
    if n == 0 {
        0
    } else {
        rank_below(a, mask, (n - 1) as nat) + if bits::member(mask, n - 1) && bits::member(a, n - 1) {
            pow2(bits::count_below(mask, (n - 1) as nat))
        } else {
            0
        }
    }
}

/// The number of the subset `a` of `mask`.
pub open spec fn rank(a: u64, mask: u64) -> nat {
    rank_below(a, mask, 64)
}

/// The subset that follows `a`; after the last one comes the empty one.
pub open spec fn next_subset(a: u64, mask: u64) -> u64 {
    a.wrapping_sub(mask) & mask
}

/// A subset holds squares of the whole set only.
pub proof fn lemma_subset_member(a: u64, mask: u64, s: int)
    requires
        is_subset(a, mask),
    ensures
        bits::member(a, s) ==> bits::member(mask, s),
{
    if 0 <= s < 64 {
        bits::lemma_has_ops(a, mask, s);
    }
}

proof fn lemma_rank_bound(a: u64, mask: u64, n: nat)
    ensures
        rank_below(a, mask, n) < pow2(bits::count_below(mask, n)),
    decreases n,
{
    if n == 0 {
        lemma_pow2_pos(0);
    } else {
        let c = bits::count_below(mask, (n - 1) as nat);
        lemma_rank_bound(a, mask, (n - 1) as nat);
        lemma_pow2_unfold(c + 1);
    }
}

proof fn lemma_rank_full(a: u64, mask: u64, n: nat)
    requires
        forall|s: int| 0 <= s < n && bits::member(mask, s) ==> bits::member(a, s),
    ensures
        rank_below(a, mask, n) == pow2(bits::count_below(mask, n)) - 1,
    decreases n,
{
    if n == 0 {
        lemma2_to64();
    } else {
        let c = bits::count_below(mask, (n - 1) as nat);
        lemma_rank_full(a, mask, (n - 1) as nat);
        lemma_pow2_unfold(c + 1);
    }
}

proof fn lemma_rank_digits(a: u64, b: u64, mask: u64, n: nat)
    requires
        rank_below(a, mask, n) == rank_below(b, mask, n),
    ensures
        forall|s: int|
            0 <= s < n && #[trigger] bits::member(mask, s) ==> bits::member(a, s) == bits::member(
                b,
                s,
            ),
    decreases n,
{
    if n > 0 {
        lemma_rank_bound(a, mask, (n - 1) as nat);
        lemma_rank_bound(b, mask, (n - 1) as nat);
        lemma_rank_digits(a, b, mask, (n - 1) as nat);
    }
}

/// The subsets are numbered from zero, without gaps: their numbers are below two to the power of
/// the number of squares, and no two subsets share a number.
pub proof fn lemma_rank(a: u64, b: u64, mask: u64)
    requires
        is_subset(a, mask),
        is_subset(b, mask),
    ensures
        rank(a, mask) < pow2(bits::count(mask)),
        rank(a, mask) == rank(b, mask) ==> a == b,
{
    lemma_rank_bound(a, mask, 64);
    if rank(a, mask) == rank(b, mask) {
        lemma_rank_digits(a, b, mask, 64);
        assert forall|s: int| 0 <= s < 64 implies bits::member(a, s) == bits::member(b, s) by {
            lemma_subset_member(a, mask, s);
            lemma_subset_member(b, mask, s);
        }
        bits::lemma_same_squares(a, b);
    }
}

/// The empty set is the first subset.
pub proof fn lemma_rank_empty(mask: u64, n: nat)
    ensures
        rank_below(0, mask, n) == 0,
        is_subset(0, mask),
    decreases n,
{
    assert(0 & mask == 0) by (bit_vector);
    if n > 0 {
        lemma_rank_empty(mask, (n - 1) as nat);
        if n <= 64 {
            bits::lemma_has_ops(0, 0, n - 1);
        }
    }
}

/// The number of a subset with the square `p` in place of all the squares of `mask` below it.
proof fn lemma_rank_carry(a: u64, b: u64, mask: u64, p: int, n: nat)
    requires
        0 <= p < 64,
        bits::member(mask, p),
        !bits::member(a, p),
        bits::member(b, p),
        forall|s: int| 0 <= s < p && bits::member(mask, s) ==> bits::member(a, s),
        forall|s: int| 0 <= s < p ==> !bits::member(b, s),
        forall|s: int| p < s < 64 ==> bits::member(a, s) == bits::member(b, s),
    ensures
        n <= p ==> rank_below(b, mask, n) == 0,
        p < n <= 64 ==> rank_below(b, mask, n) == rank_below(a, mask, n) + 1,
    decreases n,
{
    if n > 0 {
        lemma_rank_carry(a, b, mask, p, (n - 1) as nat);
        if n == p + 1 {
            lemma_rank_full(a, mask, p as nat);
        }
    }
}

/// The next subset has the next number.
pub proof fn lemma_next_subset(a: u64, mask: u64)
    requires
        is_subset(a, mask),
    ensures
        is_subset(next_subset(a, mask), mask),
        rank(a, mask) + 1 < pow2(bits::count(mask)) ==> rank(next_subset(a, mask), mask) == rank(
            a,
            mask,
        ) + 1,
{
    let d = a.wrapping_sub(mask);
    let b = d & mask;
    assert((d & mask) & mask == d & mask) by (bit_vector);
    if a == mask {
        assert forall|s: int| 0 <= s < 64 && bits::member(mask, s) implies bits::member(a, s) by {}
        lemma_rank_full(a, mask, 64);
    } else {
        let free = mask & !a;
        assert(free != 0) by (bit_vector)
            requires
                free == mask & !a,
                a & mask == a,
                a != mask,
        ;
        bits::lemma_lowest(free);
        axiom_u64_trailing_zeros(free);
        let p = u64_trailing_zeros(free) as u64;
        assert(b == (a & !(((1u64 << p) - 1) as u64)) | (1u64 << p)) by (bit_vector)
            requires
                a & mask == a,
                p < 64,
                free == mask & !a,
                (free >> p) & 1 == 1,
                free << ((64 - p) as u64) == 0,
                d + mask == a || d + mask == a + 0x1_0000_0000_0000_0000,
                b == d & mask,
        ;
        let low = ((1u64 << p) - 1) as u64;
        assert forall|s: int| 0 <= s < 64 implies {
            &&& bits::member(b, s) == ((bits::member(a, s) && s >= p) || s == p)
            &&& bits::member(free, s) == (bits::member(mask, s) && !bits::member(a, s))
        } by {
            bits::lemma_has_ops(a & !low, 1u64 << p, s);
            bits::lemma_has_ops(a, !low, s);
            bits::lemma_has_ops(low, 0, s);
            bits::lemma_has_single(p, s);
            bits::lemma_has_ops(mask, !a, s);
            bits::lemma_has_ops(a, 0, s);
        }
        assert forall|s: int| 0 <= s < p && bits::member(mask, s) implies bits::member(a, s) by {
            assert(!bits::member(free, s));
        }
        lemma_rank_carry(a, b, mask, p as int, 64);
    }
}

} // verus!
