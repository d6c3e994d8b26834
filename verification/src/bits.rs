//! Sixty-four bit words read as sets of squares.
use vstd::prelude::*;
use vstd::std_specs::bits::*;

verus! {

/// Whether square `s` belongs to the set that the word `bb` stands for.
pub open spec fn member(bb: u64, s: int) -> bool {
    0 <= s < 64 && (bb >> (s as u64)) & 1 == 1
}

/// How many squares below `n` belong to `bb`.
pub open spec fn count_below(bb: u64, n: nat) -> nat
    decreases n,
{
    if n == 0 {
        0
    } else {
        count_below(bb, (n - 1) as nat) + if member(bb, n - 1) {
            1nat
        } else {
            0nat
        }
    }
}

/// How many squares belong to `bb`.
pub open spec fn count(bb: u64) -> nat {
    count_below(bb, 64)
}

/// `u64::count_ones` returns the number of ones in the binary representation.
pub assume_specification[ u64::count_ones ](i: u64) -> (r: u32)
    ensures
        r == count(i),
;

#[verifier::rlimit(40)]
proof fn lemma_bit_table(a: u64, b: u64, i: u64, k: u64)
    by (bit_vector)
    requires
        i < 64,
        k < 64,
    ensures
        ((a & b) >> i) & 1 == 1 <==> (a >> i) & 1 == 1 && (b >> i) & 1 == 1,
        ((a | b) >> i) & 1 == 1 <==> (a >> i) & 1 == 1 || (b >> i) & 1 == 1,
        ((a ^ b) >> i) & 1 == 1 <==> !((a >> i) & 1 == 1 <==> (b >> i) & 1 == 1),
        ((!a) >> i) & 1 == 1 <==> !((a >> i) & 1 == 1),
        (0u64 >> i) & 1 == 0,
        ((1u64 << k) >> i) & 1 == 1 <==> i == k,
        (((1u64 << k) - 1) as u64 >> i) & 1 == 1 <==> i < k,
        (1u64 << k) >= 1,
        i >= k ==> (((a << k) >> i) & 1 == 1 <==> (a >> ((i - k) as u64)) & 1 == 1),
        i < k ==> ((a << k) >> i) & 1 == 0,
        i + k < 64 ==> (((a >> k) >> i) & 1 == 1 <==> (a >> ((i + k) as u64)) & 1 == 1),
        i + k >= 64 ==> ((a >> k) >> i) & 1 == 0,
{
}

/// Membership in the words that the bit operators build.
pub proof fn lemma_has_ops(a: u64, b: u64, s: int)
    requires
        0 <= s < 64,
    ensures
        member(a & b, s) <==> member(a, s) && member(b, s),
        member(a | b, s) <==> member(a, s) || member(b, s),
        member(a ^ b, s) <==> !(member(a, s) <==> member(b, s)),
        member(!a, s) <==> !member(a, s),
        !member(0, s),
{
    lemma_bit_table(a, b, s as u64, 0);
}

/// The word with the single bit `k`, and the word with all the bits below `k`.
pub proof fn lemma_has_single(k: u64, s: int)
    requires
        0 <= s < 64,
        k < 64,
    ensures
        member(1u64 << k, s) <==> s == k,
        (1u64 << k) >= 1,
        member(((1u64 << k) - 1) as u64, s) <==> s < k,
{
    lemma_bit_table(0, 0, s as u64, k);
}

/// Shifting a word moves every square by the same distance; squares that leave the board vanish.
pub proof fn lemma_has_shift(a: u64, k: u64, s: int)
    requires
        0 <= s < 64,
        k < 64,
    ensures
        member(a << k, s) <==> member(a, s - k),
        member(a >> k, s) <==> member(a, s + k),
{
    lemma_bit_table(a, 0, s as u64, k);
}

/// Two words with the same squares are equal.
pub proof fn lemma_same_squares(a: u64, b: u64)
    requires
        forall|s: int| 0 <= s < 64 ==> member(a, s) == member(b, s),
    ensures
        a == b,
{
    if a != b {
        let x = a ^ b;
        assert(x != 0) by (bit_vector)
            requires
                a != b,
                x == a ^ b,
        ;
        axiom_u64_trailing_zeros(x);
        let t = u64_trailing_zeros(x) as int;
        assert(member(x, t));
        lemma_has_ops(a, b, t);
    }
}

/// The lowest square of a word that is not empty, and the word without it.
pub proof fn lemma_lowest(bb: u64)
    requires
        bb != 0,
    ensures
        u64_trailing_zeros(bb) < 64,
        member(bb, u64_trailing_zeros(bb) as int),
        forall|s: int| 0 <= s < u64_trailing_zeros(bb) ==> !member(bb, s),
        forall|s: int| #[trigger]
            member(bb & (bb - 1) as u64, s) <==> member(bb, s) && s != u64_trailing_zeros(bb),
{
    axiom_u64_trailing_zeros(bb);
    let t = u64_trailing_zeros(bb) as u64;
    assert forall|s: int| 0 <= s < t implies !member(bb, s) by {
        assert((bb >> (s as u64)) & 1 == 0);
    }
    let rest = bb & (bb - 1) as u64;
    assert(rest == bb ^ (1u64 << t)) by (bit_vector)
        requires
            t < 64,
            (bb >> t) & 1 == 1,
            bb << ((64 - t) as u64) == 0,
            rest == bb & (bb - 1) as u64,
    ;
    assert forall|s: int| #[trigger] member(rest, s) <==> member(bb, s) && s != t by {
        if 0 <= s < 64 {
            lemma_has_ops(bb, 1u64 << t, s);
            lemma_has_single(t, s);
        }
    }
}

/// No more squares are counted than there are.
pub proof fn lemma_count_bound(bb: u64, n: nat)
    ensures
        count_below(bb, n) <= n,
    decreases n,
{
    if n > 0 {
        lemma_count_bound(bb, (n - 1) as nat);
    }
}

/// A square that is not in the set is not counted.
pub proof fn lemma_count_gap(bb: u64, s: int, n: nat)
    requires
        0 <= s < n,
        !member(bb, s),
    ensures
        count_below(bb, n) < n,
    decreases n,
{
    if s == n - 1 {
        lemma_count_bound(bb, (n - 1) as nat);
    } else {
        lemma_count_gap(bb, s, (n - 1) as nat);
    }
}

/// The squares of two sets without a common square are counted together.
pub proof fn lemma_count_union(a: u64, b: u64, c: u64, n: nat)
    requires
        forall|s: int| #[trigger] member(c, s) <==> member(a, s) || member(b, s),
        forall|s: int| !(#[trigger] member(a, s) && member(b, s)),
    ensures
        count_below(c, n) == count_below(a, n) + count_below(b, n),
    decreases n,
{
    if n > 0 {
        lemma_count_union(a, b, c, (n - 1) as nat);
        assert(member(c, n - 1) <==> member(a, n - 1) || member(b, n - 1));
        assert(!(member(a, n - 1) && member(b, n - 1)));
    }
}

/// A single square counts as one.
pub proof fn lemma_count_single(a: u64, k: int, n: nat)
    requires
        0 <= k < 64,
        n <= 64,
        forall|s: int| #[trigger] member(a, s) <==> s == k,
    ensures
        count_below(a, n) == if k < n {
            1int
        } else {
            0int
        },
    decreases n,
{
    if n > 0 {
        lemma_count_single(a, k, (n - 1) as nat);
        assert(member(a, n - 1) <==> n - 1 == k);
    }
}

/// A set with one square more than another one counts at most one more.
pub proof fn lemma_count_extended(a: u64, b: u64, s: int, n: nat)
    requires
        forall|u: int| #[trigger] member(a, u) ==> member(b, u) || u == s,
    ensures
        count_below(a, n) <= count_below(b, n) + if 0 <= s < n {
            1int
        } else {
            0int
        },
    decreases n,
{
    if n > 0 {
        lemma_count_extended(a, b, s, (n - 1) as nat);
        assert(member(a, n - 1) ==> member(b, n - 1) || n - 1 == s);
    }
}

/// The empty set counts nothing.
pub proof fn lemma_count_empty(n: nat)
    ensures
        count_below(0, n) == 0,
    decreases n,
{
    if n > 0 {
        lemma_count_empty((n - 1) as nat);
        if n <= 64 {
            lemma_has_ops(0, 0, n - 1);
        }
    }
}

} // verus!
