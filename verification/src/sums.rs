//! Finite sums.
use vstd::prelude::*;

use crate::types;

verus! {

/// The sum of `f` over the numbers below `n`.
pub open spec fn sum(f: spec_fn(int) -> int, n: nat) -> int
    decreases n,
{
    if n == 0 {
        0
    } else {
        sum(f, (n - 1) as nat) + f(n - 1)
    }
}

/// The sum of `f` over all the pairs of numbers, the first below `m`, the second below `n`.
pub open spec fn double_sum(f: spec_fn(int, int) -> int, m: nat, n: nat) -> int {
    sum(|i: int| sum(|j: int| f(i, j), n), m)
}

/// Equal terms have equal sums.
pub proof fn lemma_sum_equal(f: spec_fn(int) -> int, g: spec_fn(int) -> int, n: nat)
    requires
        forall|i: int| 0 <= i < n ==> #[trigger] f(i) == g(i),
    ensures
        sum(f, n) == sum(g, n),
    decreases n,
{
    if n > 0 {
        lemma_sum_equal(f, g, (n - 1) as nat);
        assert(f(n - 1) == g(n - 1));
    }
}

/// The sum of sums is the sum of the two sums.
pub proof fn lemma_sum_add(
    f: spec_fn(int) -> int,
    g: spec_fn(int) -> int,
    h: spec_fn(int) -> int,
    n: nat,
)
    requires
        forall|i: int| 0 <= i < n ==> #[trigger] h(i) == f(i) + g(i),
    ensures
        sum(h, n) == sum(f, n) + sum(g, n),
    decreases n,
{
    if n > 0 {
        lemma_sum_add(f, g, h, (n - 1) as nat);
        assert(h(n - 1) == f(n - 1) + g(n - 1));
    }
}

/// The order of summation does not matter.
pub proof fn lemma_sum_swap(f: spec_fn(int, int) -> int, m: nat, n: nat)
    ensures
        double_sum(f, m, n) == double_sum(|j: int, i: int| f(i, j), n, m),
    decreases m,
{
    let swapped = |j: int, i: int| f(i, j);
    if m == 0 {
        lemma_sum_zero(|j: int| sum(|i: int| swapped(j, i), 0), n);
    } else {
        let k = (m - 1) as nat;
        lemma_sum_swap(f, k, n);
        let columns = |j: int| sum(|i: int| swapped(j, i), m);
        let shorter = |j: int| sum(|i: int| swapped(j, i), k);
        let last = |j: int| f(k as int, j);
        assert forall|j: int| 0 <= j < n implies #[trigger] columns(j) == shorter(j) + last(j) by {
            assert(sum(|i: int| swapped(j, i), m) == sum(|i: int| swapped(j, i), k) + f(k as int, j));
        }
        lemma_sum_add(shorter, last, columns, n);
        let rows = |i: int| sum(|j: int| f(i, j), n);
        assert(sum(rows, m) == sum(rows, k) + rows(k as int));
        lemma_sum_equal(|j: int| f(k as int, j), last, n);
        lemma_sum_equal(rows, |i: int| sum(|j: int| f(i, j), n), k);
    }
}

/// A sum of zeros is zero.
pub proof fn lemma_sum_zero(f: spec_fn(int) -> int, n: nat)
    requires
        forall|i: int| 0 <= i < n ==> #[trigger] f(i) == 0,
    ensures
        sum(f, n) == 0,
    decreases n,
{
    if n > 0 {
        lemma_sum_zero(f, (n - 1) as nat);
        assert(f(n - 1) == 0);
    }
}

/// Two arrays whose entries agree once each entry is added to its mirror image have the same sum.
pub proof fn lemma_sum_symmetric(f: spec_fn(int, int) -> int, g: spec_fn(int, int) -> int, n: nat)
    requires
        forall|i: int, j: int|
            0 <= i < n && 0 <= j < n ==> #[trigger] f(i, j) + f(j, i) == g(i, j) + g(j, i),
    ensures
        double_sum(f, n, n) == double_sum(g, n, n),
{
    lemma_twice(f, n);
    lemma_twice(g, n);
    let both_f = |i: int| sum(|j: int| f(i, j) + f(j, i), n);
    let both_g = |i: int| sum(|j: int| g(i, j) + g(j, i), n);
    assert forall|i: int| 0 <= i < n implies #[trigger] both_f(i) == both_g(i) by {
        let (a, b) = (|j: int| f(i, j) + f(j, i), |j: int| g(i, j) + g(j, i));
        assert forall|j: int| 0 <= j < n implies #[trigger] a(j) == b(j) by {
            assert(f(i, j) + f(j, i) == g(i, j) + g(j, i));
        }
        lemma_sum_equal(a, b, n);
    }
    lemma_sum_equal(both_f, both_g, n);
}

/// Adding to each entry its mirror image doubles the sum.
proof fn lemma_twice(f: spec_fn(int, int) -> int, n: nat)
    ensures
        sum(|i: int| sum(|j: int| f(i, j) + f(j, i), n), n) == 2 * double_sum(f, n, n),
{
    let rows = |i: int| sum(|j: int| f(i, j), n);
    let swapped = |j: int, i: int| f(i, j);
    let columns = |i: int| sum(|j: int| swapped(i, j), n);
    let both = |i: int| sum(|j: int| f(i, j) + f(j, i), n);
    assert forall|i: int| 0 <= i < n implies #[trigger] both(i) == rows(i) + columns(i) by {
        lemma_sum_add(
            |j: int| f(i, j),
            |j: int| swapped(i, j),
            |j: int| f(i, j) + f(j, i),
            n,
        );
    }
    lemma_sum_add(rows, columns, both, n);
    lemma_sum_swap(f, n, n);
}

/// Larger terms have larger sums.
pub proof fn lemma_sum_at_most(f: spec_fn(int) -> int, g: spec_fn(int) -> int, n: nat)
    requires
        forall|i: int| 0 <= i < n ==> #[trigger] f(i) <= g(i),
    ensures
        sum(f, n) <= sum(g, n),
    decreases n,
{
    if n > 0 {
        lemma_sum_at_most(f, g, (n - 1) as nat);
        assert(f(n - 1) <= g(n - 1));
    }
}

/// A sum of numbers that are not negative is at least as large as each of them.
pub proof fn lemma_sum_at_least(f: spec_fn(int) -> int, n: nat, k: int)
    requires
        forall|i: int| 0 <= i < n ==> #[trigger] f(i) >= 0,
        0 <= k < n,
    ensures
        sum(f, n) >= f(k),
    decreases n,
{
    let m = (n - 1) as nat;
    if k == m {
        lemma_sum_at_most(|i: int| 0, f, m);
        lemma_sum_zero(|i: int| 0, m);
    } else {
        lemma_sum_at_least(f, m, k);
        assert(f(m as int) >= 0);
    }
}

/// A sum with at most one term other than zero is at most as large as that term can be.
pub proof fn lemma_sum_single(f: spec_fn(int) -> int, n: nat, limit: int)
    requires
        limit >= 0,
        forall|i: int| 0 <= i < n ==> #[trigger] f(i) <= limit,
        forall|i: int, j: int|
            0 <= i < j < n ==> #[trigger] f(i) == 0 || #[trigger] f(j) == 0,
    ensures
        sum(f, n) <= limit,
    decreases n,
{
    if n > 0 {
        let m = (n - 1) as nat;
        lemma_sum_single(f, m, limit);
        if f(m as int) != 0 {
            assert forall|i: int| 0 <= i < m implies #[trigger] f(i) == 0 by {
                assert(f(i) == 0 || f(m as int) == 0);
            }
            lemma_sum_zero(f, m);
        }
    }
}

/// If the entries of one array, each added to its mirror image, are at most those of another one,
/// so is the sum.
pub proof fn lemma_sum_mirrored_at_most(
    f: spec_fn(int, int) -> int,
    g: spec_fn(int, int) -> int,
    n: nat,
)
    requires
        forall|i: int, j: int|
            0 <= i < n && 0 <= j < n ==> #[trigger] f(i, j) + f(j, i) <= g(i, j) + g(j, i),
    ensures
        double_sum(f, n, n) <= double_sum(g, n, n),
{
    lemma_twice(f, n);
    lemma_twice(g, n);
    let both_f = |i: int| sum(|j: int| f(i, j) + f(j, i), n);
    let both_g = |i: int| sum(|j: int| g(i, j) + g(j, i), n);
    assert forall|i: int| 0 <= i < n implies #[trigger] both_f(i) <= both_g(i) by {
        let (a, b) = (|j: int| f(i, j) + f(j, i), |j: int| g(i, j) + g(j, i));
        assert forall|j: int| 0 <= j < n implies #[trigger] a(j) <= b(j) by {
            assert(f(i, j) + f(j, i) <= g(i, j) + g(j, i));
        }
        lemma_sum_at_most(a, b, n);
    }
    lemma_sum_at_most(both_f, both_g, n);
}

/// A common factor comes out of a sum.
pub proof fn lemma_sum_times(f: spec_fn(int) -> int, g: spec_fn(int) -> int, k: int, n: nat)
    requires
        forall|i: int| 0 <= i < n ==> #[trigger] g(i) == k * f(i),
    ensures
        sum(g, n) == k * sum(f, n),
    decreases n,
{
    if n == 0 {
        assert(k * 0 == 0);
    } else {
        let m = (n - 1) as nat;
        lemma_sum_times(f, g, k, m);
        assert(g(m as int) == k * f(m as int));
        assert(k * (sum(f, m) + f(m as int)) == k * sum(f, m) + k * f(m as int))
            by (nonlinear_arith);
    }
}

/// Turning the board over keeps the sum over all its squares.
pub proof fn lemma_sum_flip(f: spec_fn(int) -> int)
    ensures
        sum(|s: int| f(types::flip_ranks(s)), 64) == sum(f, 64),
{
    let g = |s: int| f(types::flip_ranks(s));
    reveal_with_fuel(sum, 65);
    assert(sum(g, 64) == sum(f, 64));
}

/// Mirroring the files keeps the sum over all the squares of the board.
pub proof fn lemma_sum_mirror(f: spec_fn(int) -> int)
    ensures
        sum(|s: int| f(types::flip_files(s)), 64) == sum(f, 64),
{
    let g = |s: int| f(types::flip_files(s));
    reveal_with_fuel(sum, 65);
    assert(sum(g, 64) == sum(f, 64));
}

} // verus!
