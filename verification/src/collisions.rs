//! No two sets of blockers share a slot.
use vstd::prelude::*;

use crate::bits;
use crate::magics;
use crate::magics::{MagicRow, BISHOP_MAGICS, BISHOP_MAP_SIZE, ROOK_MAGICS, ROOK_MAP_SIZE};
use crate::subsets;
use crate::types::PieceType;

verus! {

// The statements about all the rows of a list, square by square.

spec fn row_perfect(row: MagicRow, a: u64, b: u64) -> bool {
    a & row.0 == a && b & row.0 == b && ((a * row.1) as u64) >> row.2 == ((b * row.1) as u64)
        >> row.2 ==> a == b
}

spec fn rook_rows_perfect(lo: int, hi: int, a: u64, b: u64) -> bool
    decreases hi - lo,
{
    lo >= hi || (row_perfect(ROOK_MAGICS[lo], a, b) && rook_rows_perfect(lo + 1, hi, a, b))
}

spec fn bishop_rows_perfect(lo: int, hi: int, a: u64, b: u64) -> bool
    decreases hi - lo,
{
    lo >= hi || (row_perfect(BISHOP_MAGICS[lo], a, b) && bishop_rows_perfect(lo + 1, hi, a, b))
}

spec fn rook_row_mask(row: MagicRow, s: u64, t: u64) -> bool {
    (row.0 >> t) & 1 == 1 <==> (t % 8 == s % 8 && t / 8 != s / 8 && 1 <= t / 8 <= 6) || (t / 8 == s
        / 8 && t % 8 != s % 8 && 1 <= t % 8 <= 6)
}

spec fn bishop_row_mask(row: MagicRow, s: u64, t: u64) -> bool {
    (row.0 >> t) & 1 == 1 <==> (t % 8 + t / 8 == s % 8 + s / 8 || t % 8 + s / 8 == s % 8 + t / 8)
        && t != s && 1 <= t % 8 <= 6 && 1 <= t / 8 <= 6
}

spec fn rook_row_masks(lo: int, hi: int, t: u64) -> bool
    decreases hi - lo,
{
    lo >= hi || (rook_row_mask(ROOK_MAGICS[lo], lo as u64, t) && rook_row_masks(lo + 1, hi, t))
}

spec fn bishop_row_masks(lo: int, hi: int, t: u64) -> bool
    decreases hi - lo,
{
    lo >= hi || (bishop_row_mask(BISHOP_MAGICS[lo], lo as u64, t) && bishop_row_masks(
        lo + 1,
        hi,
        t,
    ))
}

spec fn row_slots(row: MagicRow, start: int, end: int) -> bool {
    52 <= row.2 <= 59 && row.3 == start && row.3 + (1u64 << ((64 - row.2) as u64)) == end
}

spec fn rook_row_slots(lo: int, hi: int) -> bool
    decreases hi - lo,
{
    lo >= hi || (row_slots(
        ROOK_MAGICS[lo],
        ROOK_MAGICS[lo].3 as int,
        if lo == 63 {
            ROOK_MAP_SIZE as int
        } else {
            ROOK_MAGICS[lo + 1].3 as int
        },
    ) && rook_row_slots(lo + 1, hi))
}

spec fn bishop_row_slots(lo: int, hi: int) -> bool
    decreases hi - lo,
{
    lo >= hi || (row_slots(
        BISHOP_MAGICS[lo],
        BISHOP_MAGICS[lo].3 as int,
        if lo == 63 {
            BISHOP_MAP_SIZE as int
        } else {
            BISHOP_MAGICS[lo + 1].3 as int
        },
    ) && bishop_row_slots(lo + 1, hi))
}

#[verifier::rlimit(100)]
proof fn lemma_rook_rows_0(a: u64, b: u64)
    by (bit_vector)
    ensures
        rook_rows_perfect(0, 4, a, b),
{
}

#[verifier::rlimit(100)]
proof fn lemma_rook_rows_4(a: u64, b: u64)
    by (bit_vector)
    ensures
        rook_rows_perfect(4, 8, a, b),
{
}

#[verifier::rlimit(100)]
proof fn lemma_rook_rows_8(a: u64, b: u64)
    by (bit_vector)
    ensures
        rook_rows_perfect(8, 12, a, b),
{
}

#[verifier::rlimit(100)]
proof fn lemma_rook_rows_12(a: u64, b: u64)
    by (bit_vector)
    ensures
        rook_rows_perfect(12, 16, a, b),
{
}

#[verifier::rlimit(100)]
proof fn lemma_rook_rows_16(a: u64, b: u64)
    by (bit_vector)
    ensures
        rook_rows_perfect(16, 20, a, b),
{
}

#[verifier::rlimit(100)]
proof fn lemma_rook_rows_20(a: u64, b: u64)
    by (bit_vector)
    ensures
        rook_rows_perfect(20, 24, a, b),
{
}

#[verifier::rlimit(100)]
proof fn lemma_rook_rows_24(a: u64, b: u64)
    by (bit_vector)
    ensures
        rook_rows_perfect(24, 28, a, b),
{
}

#[verifier::rlimit(100)]
proof fn lemma_rook_rows_28(a: u64, b: u64)
    by (bit_vector)
    ensures
        rook_rows_perfect(28, 32, a, b),
{
}

#[verifier::rlimit(100)]
proof fn lemma_rook_rows_32(a: u64, b: u64)
    by (bit_vector)
    ensures
        rook_rows_perfect(32, 36, a, b),
{
}

#[verifier::rlimit(100)]
proof fn lemma_rook_rows_36(a: u64, b: u64)
    by (bit_vector)
    ensures
        rook_rows_perfect(36, 40, a, b),
{
}

#[verifier::rlimit(100)]
proof fn lemma_rook_rows_40(a: u64, b: u64)
    by (bit_vector)
    ensures
        rook_rows_perfect(40, 44, a, b),
{
}

#[verifier::rlimit(100)]
proof fn lemma_rook_rows_44(a: u64, b: u64)
    by (bit_vector)
    ensures
        rook_rows_perfect(44, 48, a, b),
{
}

#[verifier::rlimit(100)]
proof fn lemma_rook_rows_48(a: u64, b: u64)
    by (bit_vector)
    ensures
        rook_rows_perfect(48, 52, a, b),
{
}

#[verifier::rlimit(100)]
proof fn lemma_rook_rows_52(a: u64, b: u64)
    by (bit_vector)
    ensures
        rook_rows_perfect(52, 56, a, b),
{
}

#[verifier::rlimit(100)]
proof fn lemma_rook_rows_56(a: u64, b: u64)
    by (bit_vector)
    ensures
        rook_rows_perfect(56, 60, a, b),
{
}

#[verifier::rlimit(100)]
proof fn lemma_rook_rows_60(a: u64, b: u64)
    by (bit_vector)
    ensures
        rook_rows_perfect(60, 64, a, b),
{
}

#[verifier::rlimit(100)]
proof fn lemma_bishop_rows_0(a: u64, b: u64)
    by (bit_vector)
    ensures
        bishop_rows_perfect(0, 16, a, b),
{
}

#[verifier::rlimit(100)]
proof fn lemma_bishop_rows_16(a: u64, b: u64)
    by (bit_vector)
    ensures
        bishop_rows_perfect(16, 32, a, b),
{
}

#[verifier::rlimit(100)]
proof fn lemma_bishop_rows_32(a: u64, b: u64)
    by (bit_vector)
    ensures
        bishop_rows_perfect(32, 48, a, b),
{
}

#[verifier::rlimit(100)]
proof fn lemma_bishop_rows_48(a: u64, b: u64)
    by (bit_vector)
    ensures
        bishop_rows_perfect(48, 64, a, b),
{
}

proof fn lemma_row_masks(t: u64)
    by (bit_vector)
    requires
        t < 64,
    ensures
        rook_row_masks(0, 64, t),
        bishop_row_masks(0, 64, t),
{
}

proof fn lemma_row_slots()
    by (bit_vector)
    ensures
        rook_row_slots(0, 64),
        bishop_row_slots(0, 64),
{
}

proof fn lemma_pick_rook_perfect(lo: int, hi: int, s: int, a: u64, b: u64)
    requires
        rook_rows_perfect(lo, hi, a, b),
    ensures
        lo <= s < hi ==> row_perfect(ROOK_MAGICS[s], a, b),
    decreases hi - lo,
{
    if lo < hi && lo != s {
        lemma_pick_rook_perfect(lo + 1, hi, s, a, b);
    }
}

proof fn lemma_pick_bishop_perfect(lo: int, hi: int, s: int, a: u64, b: u64)
    requires
        bishop_rows_perfect(lo, hi, a, b),
    ensures
        lo <= s < hi ==> row_perfect(BISHOP_MAGICS[s], a, b),
    decreases hi - lo,
{
    if lo < hi && lo != s {
        lemma_pick_bishop_perfect(lo + 1, hi, s, a, b);
    }
}

proof fn lemma_pick_rook_mask(lo: int, hi: int, s: int, t: u64)
    requires
        rook_row_masks(lo, hi, t),
        lo <= s < hi,
    ensures
        rook_row_mask(ROOK_MAGICS[s], s as u64, t),
    decreases hi - lo,
{
    if lo != s {
        lemma_pick_rook_mask(lo + 1, hi, s, t);
    }
}

proof fn lemma_pick_bishop_mask(lo: int, hi: int, s: int, t: u64)
    requires
        bishop_row_masks(lo, hi, t),
        lo <= s < hi,
    ensures
        bishop_row_mask(BISHOP_MAGICS[s], s as u64, t),
    decreases hi - lo,
{
    if lo != s {
        lemma_pick_bishop_mask(lo + 1, hi, s, t);
    }
}

proof fn lemma_pick_rook_slots(lo: int, hi: int, s: int)
    requires
        rook_row_slots(lo, hi),
        lo <= s < hi <= 64,
    ensures
        52 <= ROOK_MAGICS[s].2 <= 59,
        magics::slots(magics::entry(PieceType::Rook, s)) + ROOK_MAGICS[s].3 == if s == 63 {
            ROOK_MAP_SIZE as int
        } else {
            ROOK_MAGICS[s + 1].3 as int
        },
    decreases hi - lo,
{
    if lo != s {
        lemma_pick_rook_slots(lo + 1, hi, s);
    }
}

proof fn lemma_pick_bishop_slots(lo: int, hi: int, s: int)
    requires
        bishop_row_slots(lo, hi),
        lo <= s < hi <= 64,
    ensures
        52 <= BISHOP_MAGICS[s].2 <= 59,
        magics::slots(magics::entry(PieceType::Bishop, s)) + BISHOP_MAGICS[s].3 == if s == 63 {
            BISHOP_MAP_SIZE as int
        } else {
            BISHOP_MAGICS[s + 1].3 as int
        },
    decreases hi - lo,
{
    if lo != s {
        lemma_pick_bishop_slots(lo + 1, hi, s);
    }
}

/// Rooks and bishops are the pieces with tables of their own.
/// Whether the attacks of this kind of piece are looked up by magic numbers.
pub open spec fn has_table(kind: PieceType) -> bool {
    kind is Rook || kind is Bishop
}

/// Two different sets of blockers have different hashes.
pub proof fn lemma_perfect(kind: PieceType, s: int, a: u64, b: u64)
    requires
        has_table(kind),
        0 <= s < 64,
        subsets::is_subset(a, magics::entry(kind, s).mask),
        subsets::is_subset(b, magics::entry(kind, s).mask),
        magics::hash(a, magics::entry(kind, s)) == magics::hash(b, magics::entry(kind, s)),
    ensures
        a == b,
{
    if kind is Rook {
        assert(row_perfect(ROOK_MAGICS[s], a, b)) by {
            lemma_rook_rows_0(a, b);
            lemma_rook_rows_4(a, b);
            lemma_rook_rows_8(a, b);
            lemma_rook_rows_12(a, b);
            lemma_rook_rows_16(a, b);
            lemma_rook_rows_20(a, b);
            lemma_rook_rows_24(a, b);
            lemma_rook_rows_28(a, b);
            lemma_rook_rows_32(a, b);
            lemma_rook_rows_36(a, b);
            lemma_rook_rows_40(a, b);
            lemma_rook_rows_44(a, b);
            lemma_rook_rows_48(a, b);
            lemma_rook_rows_52(a, b);
            lemma_rook_rows_56(a, b);
            lemma_rook_rows_60(a, b);
            lemma_pick_rook_perfect(0, 4, s, a, b);
            lemma_pick_rook_perfect(4, 8, s, a, b);
            lemma_pick_rook_perfect(8, 12, s, a, b);
            lemma_pick_rook_perfect(12, 16, s, a, b);
            lemma_pick_rook_perfect(16, 20, s, a, b);
            lemma_pick_rook_perfect(20, 24, s, a, b);
            lemma_pick_rook_perfect(24, 28, s, a, b);
            lemma_pick_rook_perfect(28, 32, s, a, b);
            lemma_pick_rook_perfect(32, 36, s, a, b);
            lemma_pick_rook_perfect(36, 40, s, a, b);
            lemma_pick_rook_perfect(40, 44, s, a, b);
            lemma_pick_rook_perfect(44, 48, s, a, b);
            lemma_pick_rook_perfect(48, 52, s, a, b);
            lemma_pick_rook_perfect(52, 56, s, a, b);
            lemma_pick_rook_perfect(56, 60, s, a, b);
            lemma_pick_rook_perfect(60, 64, s, a, b);
        }
    } else {
        assert(row_perfect(BISHOP_MAGICS[s], a, b)) by {
            lemma_bishop_rows_0(a, b);
            lemma_bishop_rows_16(a, b);
            lemma_bishop_rows_32(a, b);
            lemma_bishop_rows_48(a, b);
            lemma_pick_bishop_perfect(0, 16, s, a, b);
            lemma_pick_bishop_perfect(16, 32, s, a, b);
            lemma_pick_bishop_perfect(32, 48, s, a, b);
            lemma_pick_bishop_perfect(48, 64, s, a, b);
        }
    }
}

/// The mask of a square holds exactly the squares where a blocker makes a difference.
pub proof fn lemma_mask(kind: PieceType, s: int, t: int)
    requires
        has_table(kind),
        0 <= s < 64,
        0 <= t < 64,
    ensures
        bits::member(magics::entry(kind, s).mask, t) <==> magics::relevant(kind, s, t),
{
    lemma_row_masks(t as u64);
    if kind is Rook {
        lemma_pick_rook_mask(0, 64, s, t as u64);
    } else {
        lemma_pick_bishop_mask(0, 64, s, t as u64);
    }
}

/// The slots of a square lie before those of every later square, and inside the table.
pub proof fn lemma_slots(kind: PieceType, s: int, later: int)
    requires
        has_table(kind),
        0 <= s < later <= 64,
    ensures
        52 <= magics::entry(kind, s).shift <= 59,
        later < 64 ==> magics::entry(kind, s).offset + magics::slots(magics::entry(kind, s))
            <= magics::entry(kind, later).offset,
        later == 64 ==> magics::entry(kind, s).offset + magics::slots(magics::entry(kind, s))
            <= magics::map_size(kind),
    decreases later - s,
{
    lemma_row_slots();
    if kind is Rook {
        lemma_pick_rook_slots(0, 64, s);
    } else {
        lemma_pick_bishop_slots(0, 64, s);
    }
    if s + 1 < later {
        lemma_slots(kind, s + 1, later);
    }
}

proof fn lemma_shift_bound(x: u64, shift: u32)
    by (bit_vector)
    requires
        52 <= shift <= 59,
    ensures
        x >> shift < 1u64 << ((64 - shift) as u64),
        1u64 << ((64 - shift) as u64) <= 4096,
{
}

/// Every set of occupied squares has its slot among those of the square.
pub proof fn lemma_slot_range(kind: PieceType, s: int, occ: u64)
    requires
        has_table(kind),
        0 <= s < 64,
    ensures
        magics::entry(kind, s).offset <= magics::slot(occ, magics::entry(kind, s)),
        magics::slot(occ, magics::entry(kind, s)) < magics::entry(kind, s).offset + magics::slots(
            magics::entry(kind, s),
        ),
        magics::slot(occ, magics::entry(kind, s)) < magics::map_size(kind),
        52 <= magics::entry(kind, s).shift <= 59,
{
    let e = magics::entry(kind, s);
    lemma_slots(kind, s, 64);
    lemma_shift_bound(((occ & e.mask) * e.magic) as u64, e.shift);
}

} // verus!
