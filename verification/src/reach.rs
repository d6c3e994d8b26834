//! How many attacks the pieces have on an empty board.
use vstd::prelude::*;

use crate::bits;
use crate::geometry;
use crate::tables;
use crate::types::Piece;

verus! {

/// How many squares below `n` a piece on `from` of an empty board attacks.
pub open spec fn reach_below(piece: Piece, from: int, n: nat) -> nat
    decreases n,
{
    if n == 0 {
        0
    } else {
        reach_below(piece, from, (n - 1) as nat) + if geometry::reaches(
            piece.kind(),
            piece.side(),
            from,
            n - 1,
        ) {
            1nat
        } else {
            0nat
        }
    }
}

/// Whether attacks from square `s` are numbered: pawns do not stand on the first and last rank.
pub open spec fn is_origin(piece: Piece, s: int) -> bool {
    piece.kind() is Pawn ==> 8 <= s < 56
}

/// How many attacks from the squares below `n` are numbered.
pub open spec fn offset_below(piece: Piece, n: nat) -> nat
    decreases n,
{
    if n == 0 {
        0
    } else {
        offset_below(piece, (n - 1) as nat) + if is_origin(piece, n - 1) {
            reach_below(piece, n - 1, 64)
        } else {
            0
        }
    }
}

/// How many attacks of a piece are numbered, on all the squares of an empty board.
pub open spec fn span(piece: Piece) -> nat {
    offset_below(piece, 64)
}

/// The numbers of attacks on an empty board.
pub proof fn lemma_spans()
    by (bit_vector)
    ensures
        span(Piece(0)) == 84,
        span(Piece(1)) == 84,
        span(Piece(2)) == 336,
        span(Piece(3)) == 336,
        span(Piece(4)) == 560,
        span(Piece(5)) == 560,
        span(Piece(6)) == 896,
        span(Piece(7)) == 896,
        span(Piece(8)) == 1456,
        span(Piece(9)) == 1456,
        span(Piece(10)) == 420,
        span(Piece(11)) == 420,
{
}

/// The later the square, the more attacks lie below it.
pub proof fn lemma_reach_monotone(piece: Piece, from: int, m: nat, n: nat)
    requires
        m <= n,
    ensures
        reach_below(piece, from, m) <= reach_below(piece, from, n),
        reach_below(piece, from, n) <= n,
    decreases n,
{
    if m < n {
        lemma_reach_monotone(piece, from, m, (n - 1) as nat);
    } else if n > 0 {
        lemma_reach_monotone(piece, from, (n - 1) as nat, (n - 1) as nat);
    }
}

/// The attack on `to` counts among the attacks up to any later square.
pub proof fn lemma_reach_strict(piece: Piece, from: int, to: nat, n: nat)
    requires
        to < n,
        geometry::reaches(piece.kind(), piece.side(), from, to as int),
    ensures
        reach_below(piece, from, to) < reach_below(piece, from, n),
{
    lemma_reach_monotone(piece, from, to + 1, n);
}

/// The later the square, the more attacks are numbered before it.
pub proof fn lemma_offset_monotone(piece: Piece, m: nat, n: nat)
    requires
        m <= n,
    ensures
        offset_below(piece, m) <= offset_below(piece, n),
        n <= 64 ==> offset_below(piece, n) <= 64 * n,
    decreases n,
{
    if n > 0 {
        lemma_reach_monotone(piece, n - 1, 64, 64);
    }
    if m < n {
        lemma_offset_monotone(piece, m, (n - 1) as nat);
    } else if n > 0 {
        lemma_offset_monotone(piece, (n - 1) as nat, (n - 1) as nat);
    }
}

/// The attacks from a numbered square come before those of every later square.
pub proof fn lemma_offset_block(piece: Piece, from: nat, n: nat)
    requires
        from < n,
        is_origin(piece, from as int),
    ensures
        offset_below(piece, from) + reach_below(piece, from as int, 64) <= offset_below(piece, n),
{
    lemma_offset_monotone(piece, from + 1, n);
}

/// The number of squares below `to` in a set of attacked squares of an empty board.
pub proof fn lemma_reach_count(word: u64, piece: Piece, from: int, to: nat, n: nat)
    requires
        n <= 64,
        forall|t: int|
            0 <= t < 64 ==> (#[trigger] bits::member(word, t) <==> t < to && geometry::reaches(
                piece.kind(),
                piece.side(),
                from,
                t,
            )),
    ensures
        bits::count_below(word, n) == reach_below(
            piece,
            from,
            if n < to {
                n
            } else {
                to
            },
        ),
    decreases n,
{
    if n > 0 {
        lemma_reach_count(word, piece, from, to, (n - 1) as nat);
    }
}

/// On an empty board a piece attacks all that it reaches.
pub proof fn lemma_empty_board(word: u64, piece: Piece, from: int, t: int)
    requires
        0 <= t < 64,
        tables::is_attack_set(word, piece.kind(), piece.side(), from, 0),
    ensures
        bits::member(word, t) <==> geometry::reaches(piece.kind(), piece.side(), from, t),
{
    assert forall|u: int| !#[trigger] bits::member(0, u) by {
        if 0 <= u < 64 {
            bits::lemma_has_ops(0, 0, u);
        }
    }
}

} // verus!
