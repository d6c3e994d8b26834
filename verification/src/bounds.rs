//! How many features a position can have.
use vstd::prelude::*;

use crate::bits;
use crate::board::Position;
use crate::features;
use crate::geometry;
use crate::laws;
use crate::sums;
use crate::threats;
use crate::types;
use crate::types::{Color, Piece, PieceType};

verus! {

/// Whether both squares are occupied, lie on a line, and nothing stands between them.
spec fn is_visible(occ: u64, s: int, t: int) -> bool {
    &&& bits::member(occ, s)
    &&& bits::member(occ, t)
    &&& geometry::on_line(s, t)
    &&& geometry::is_clear(s, t, occ)
}

/// Whether both squares are occupied and a knight's move apart.
spec fn is_jump(occ: u64, s: int, t: int) -> bool {
    &&& bits::member(occ, s)
    &&& bits::member(occ, t)
    &&& geometry::reaches(PieceType::Knight, Color::White, s, t)
}

/// Two pieces that attack each other are of the same kind, or one of the two threats is not
/// numbered.
proof fn lemma_mutual_kinds(a: Piece, b: Piece, s: int, t: int)
    requires
        0 <= s < 64,
        0 <= t < 64,
        geometry::reaches(a.kind(), a.side(), s, t),
        geometry::reaches(b.kind(), b.side(), t, s),
        !threats::is_excluded(a, b),
        !threats::is_excluded(b, a),
    ensures
        threats::is_semi_excluded(a, b),
{
    assert(geometry::file_step(t, s) == -geometry::file_step(s, t));
    assert(geometry::rank_step(t, s) == -geometry::rank_step(s, t));
    match a.kind() {
        PieceType::Pawn => {},
        PieceType::Knight => {},
        PieceType::Bishop => {},
        PieceType::Rook => {},
        PieceType::Queen => {},
        PieceType::King => {},
    }
}

/// Between two pieces at most one threat is active.
proof fn lemma_one_active(p: Position, pov: Color, s: int, t: int)
    requires
        p.wf(),
        0 <= s < 64,
        0 <= t < 64,
    ensures
        !(features::is_active(p, pov, s, t) && features::is_active(p, pov, t, s)),
{
    if features::is_active(p, pov, s, t) && features::is_active(p, pov, t, s) {
        laws::lemma_dropped(p, pov, s, t);
        laws::lemma_dropped(p, pov, t, s);
        lemma_mutual_kinds(p.pieces[s], p.pieces[t], s, t);
        laws::lemma_oriented_apart(s, t, pov, features::is_mirrored(p.king_of(pov)));
    }
}

/// Pieces attack along lines, or like knights.
proof fn lemma_threat_relation(p: Position, s: int, t: int)
    requires
        p.wf(),
        0 <= s < 64,
        0 <= t < 64,
        features::is_threat(p, s, t),
    ensures
        is_visible(p.occ, s, t) || is_jump(p.occ, s, t),
{
    if !(p.pieces[s].kind() is Knight) {
        assert(geometry::on_line(s, t));
        if !geometry::is_slider(p.pieces[s].kind()) {
            assert(geometry::distance(s, t) == 1);
        }
    }
}

/// What the piece on `s` pays for a knight's move to `t`: the two ends of a move pay four together,
/// and the more the fewer moves in its direction there is room for.
spec fn jump_charge(s: int, t: int) -> int {
    let (df, dr) = (geometry::file_step(s, t), geometry::rank_step(s, t));
    if dr == 2 {
        3 - types::rank_of(s) / 2
    } else if dr == -2 {
        types::rank_of(s) / 2
    } else if df == 2 {
        3 - types::file_of(s) / 2
    } else {
        types::file_of(s) / 2
    }
}

/// What the piece on `s` pays for its neighbour on `t`.
spec fn charge(occ: u64, s: int, t: int) -> int {
    if is_jump(occ, s, t) {
        jump_charge(s, t)
    } else if is_visible(occ, s, t) {
        2
    } else {
        0
    }
}

/// Whatever threat there is between two pieces is paid for by the two of them.
proof fn lemma_charges_cover(p: Position, pov: Color, s: int, t: int)
    requires
        p.wf(),
        0 <= s < 64,
        0 <= t < 64,
    ensures
        4 * laws::active_count(p, pov, s, t) + 4 * laws::active_count(p, pov, t, s) <= charge(
            p.occ,
            s,
            t,
        ) + charge(p.occ, t, s),
{
    lemma_one_active(p, pov, s, t);
    assert(geometry::file_step(t, s) == -geometry::file_step(s, t));
    assert(geometry::rank_step(t, s) == -geometry::rank_step(s, t));
    assert(is_jump(p.occ, s, t) == is_jump(p.occ, t, s));
    if is_visible(p.occ, s, t) {
        geometry::lemma_clear_symmetric(s, t, p.occ);
    }
    if is_visible(p.occ, t, s) {
        geometry::lemma_clear_symmetric(t, s, p.occ);
    }
    if features::is_threat(p, s, t) {
        lemma_threat_relation(p, s, t);
    }
    if features::is_threat(p, t, s) {
        lemma_threat_relation(p, t, s);
    }
}

/// The way from `s` to `t`, by number: first the directions of lines, then the knight's moves.
spec fn way(s: int, t: int) -> int {
    let (df, dr) = (geometry::file_step(s, t), geometry::rank_step(s, t));
    if !geometry::reaches(PieceType::Knight, Color::White, s, t) {
        3 * (geometry::sign(dr) + 1) + geometry::sign(df) + 1
    } else if dr == 2 {
        if df > 0 {
            9
        } else {
            10
        }
    } else if dr == -2 {
        if df > 0 {
            11
        } else {
            12
        }
    } else if df == 2 {
        if dr > 0 {
            13
        } else {
            14
        }
    } else if dr > 0 {
        15
    } else {
        16
    }
}

/// What a piece on `s` pays at most for neighbours in one way.
spec fn way_limit(s: int, i: int) -> int {
    if i == 4 {
        0
    } else if i < 9 {
        2
    } else if i < 11 {
        3 - types::rank_of(s) / 2
    } else if i < 13 {
        types::rank_of(s) / 2
    } else if i < 15 {
        3 - types::file_of(s) / 2
    } else {
        types::file_of(s) / 2
    }
}

proof fn lemma_way(occ: u64, s: int, t: int)
    requires
        0 <= s < 64,
        0 <= t < 64,
    ensures
        0 <= way(s, t) < 17,
        0 <= charge(occ, s, t) <= way_limit(s, way(s, t)),
        0 <= way_limit(s, way(s, t)),
{
}

/// In each way there is at most one neighbour to pay for.
proof fn lemma_way_single(occ: u64, s: int, t: int, u: int)
    requires
        0 <= s < 64,
        0 <= t < 64,
        0 <= u < 64,
        way(s, t) == way(s, u),
        charge(occ, s, t) != 0,
        charge(occ, s, u) != 0,
    ensures
        t == u,
{
    if way(s, t) >= 9 {
        assert(geometry::file_step(s, t) == geometry::file_step(s, u));
        assert(geometry::rank_step(s, t) == geometry::rank_step(s, u));
    } else {
        geometry::lemma_line(s, t);
        geometry::lemma_line(s, u);
        assert(geometry::direction(s, t) == geometry::direction(s, u));
        let d = geometry::direction(s, t);
        let (m, n) = (geometry::distance(s, t), geometry::distance(s, u));
        if m < n {
            assert(!bits::member(occ, geometry::ray(s, d, m)));
        } else if n < m {
            assert(!bits::member(occ, geometry::ray(s, d, n)));
        }
    }
}

/// What the piece on `s` pays for its neighbour on `t`, if that is in way `i`.
spec fn way_charge(occ: u64, s: int, t: int, i: int) -> int {
    if way(s, t) == i {
        charge(occ, s, t)
    } else {
        0
    }
}

/// No piece pays more than twenty-eight.
proof fn lemma_charges(occ: u64, s: int)
    requires
        0 <= s < 64,
    ensures
        sums::sum(|t: int| charge(occ, s, t), 64) <= 28,
{
    let parts = |t: int, i: int| way_charge(occ, s, t, i);
    let swapped = |i: int, t: int| parts(t, i);
    let rows = |t: int| sums::sum(|i: int| parts(t, i), 17);
    let columns = |i: int| sums::sum(|t: int| swapped(i, t), 64);
    let all = |t: int| charge(occ, s, t);
    assert forall|t: int| 0 <= t < 64 implies #[trigger] all(t) <= rows(t) by {
        lemma_way(occ, s, t);
        sums::lemma_sum_at_least(|i: int| parts(t, i), 17, way(s, t));
    }
    sums::lemma_sum_at_most(all, rows, 64);
    sums::lemma_sum_swap(parts, 64, 17);
    let limits = |i: int| way_limit(s, i);
    assert forall|i: int| 0 <= i < 17 implies #[trigger] columns(i) <= limits(i) by {
        let column = |t: int| swapped(i, t);
        assert forall|t: int| 0 <= t < 64 implies #[trigger] column(t) <= way_limit(s, i) by {
            lemma_way(occ, s, t);
        }
        assert forall|t: int, u: int| 0 <= t < u < 64 implies #[trigger] column(t) == 0
            || #[trigger] column(u) == 0 by {
            if column(t) != 0 && column(u) != 0 {
                lemma_way_single(occ, s, t, u);
            }
        }
        sums::lemma_sum_single(column, 64, way_limit(s, i));
    }
    sums::lemma_sum_at_most(columns, limits, 17);
    assert(sums::sum(limits, 17) == 28) by {
        reveal_with_fuel(sums::sum, 18);
    }
}

/// Nothing is paid for an empty square.
proof fn lemma_no_charge(occ: u64, s: int)
    requires
        !bits::member(occ, s),
    ensures
        sums::sum(|t: int| charge(occ, s, t), 64) == 0,
{
    sums::lemma_sum_zero(|t: int| charge(occ, s, t), 64);
}

/// All the pieces on squares below `n` pay no more than twenty-eight each.
proof fn lemma_total_charge(occ: u64, n: nat)
    requires
        n <= 64,
    ensures
        sums::double_sum(|s: int, t: int| charge(occ, s, t), n, 64) <= 28 * bits::count_below(
            occ,
            n,
        ),
    decreases n,
{
    let f = |s: int, t: int| charge(occ, s, t);
    if n > 0 {
        let m = (n - 1) as nat;
        lemma_total_charge(occ, m);
        sums::lemma_sum_equal(|t: int| f(m as int, t), |t: int| charge(occ, m as int, t), 64);
        if bits::member(occ, m as int) {
            lemma_charges(occ, m as int);
        } else {
            lemma_no_charge(occ, m as int);
        }
    }
}

/// A position has at most eight features for each of its pieces.
pub proof fn lemma_features_per_piece(p: Position, pov: Color)
    requires
        p.wf(),
    ensures
        features::features_of(p, pov).len() <= 8 * bits::count(p.occ),
{
    let active = |s: int, t: int| laws::active_count(p, pov, s, t);
    let fourfold = |s: int, t: int| 4 * active(s, t);
    let charges = |s: int, t: int| charge(p.occ, s, t);
    assert forall|s: int, t: int| 0 <= s < 64 && 0 <= t < 64 implies #[trigger] fourfold(s, t)
        + fourfold(t, s) <= charges(s, t) + charges(t, s) by {
        lemma_charges_cover(p, pov, s, t);
    }
    sums::lemma_sum_mirrored_at_most(fourfold, charges, 64);
    lemma_total_charge(p.occ, 64);
    let rows = |s: int| sums::sum(|t: int| active(s, t), 64);
    let fourfold_rows = |s: int| sums::sum(|t: int| fourfold(s, t), 64);
    assert forall|s: int| 0 <= s < 64 implies #[trigger] fourfold_rows(s) == 4 * rows(s) by {
        sums::lemma_sum_times(|t: int| active(s, t), |t: int| fourfold(s, t), 4, 64);
    }
    sums::lemma_sum_times(rows, fourfold_rows, 4, 64);
    laws::lemma_features_len(p, pov, 64);
}

} // verus!
