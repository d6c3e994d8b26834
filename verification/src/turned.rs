//! What holds of a position and the same position seen from the other side of the board.
use vstd::prelude::*;
use vstd::seq_lib::*;

use crate::bits;
use crate::board;
use crate::board::Position;
use crate::features;
use crate::features::THREAT_BASE;
use crate::geometry;
use crate::laws;
use crate::sums;
use crate::threats;
use crate::types;
use crate::types::{Color, Piece};

verus! {

/// A piece in the other colour.
pub open spec fn recoloured(piece: Piece) -> Piece {
    Piece::of(piece.side().opposite(), piece.kind())
}

/// Whether `q` is the position `p` with the board turned over and the colours exchanged.
pub open spec fn is_turned(p: Position, q: Position) -> bool {
    &&& geometry::flipped(p.occ, q.occ)
    &&& forall|s: int|
        0 <= s < 64 && #[trigger] bits::member(p.occ, s) ==> q.pieces[types::flip_ranks(s)]
            == recoloured(p.pieces[s])
    &&& q.black_king == types::flip_ranks(p.white_king)
    &&& q.white_king == types::flip_ranks(p.black_king)
}

/// One if `v` is the piece-square feature of the piece on `s`, zero otherwise.
pub open spec fn pst_count(p: Position, pov: Color, s: int, v: usize) -> int {
    if laws::is_pst_of(p, pov, s, v) {
        1
    } else {
        0
    }
}

/// One if `v` is the feature of an active threat of the piece on `s` against the piece on `t`, zero
/// otherwise.
pub open spec fn threat_count(p: Position, pov: Color, s: int, t: int, v: usize) -> int {
    if laws::is_threat_of(p, pov, s, t, v) {
        1
    } else {
        0
    }
}

/// How often `v` is a feature of the piece on `s`.
pub open spec fn feature_count(p: Position, pov: Color, s: int, v: usize) -> int {
    pst_count(p, pov, s, v) + sums::sum(|t: int| threat_count(p, pov, s, t, v), 64)
}

proof fn lemma_threats_multiset(p: Position, pov: Color, s: int, n: nat, v: usize)
    requires
        p.wf(),
        0 <= s < 64,
        n <= 64,
    ensures
        features::threats_below(p, pov, s, n).to_multiset().count(v) == sums::sum(
            |t: int| threat_count(p, pov, s, t, v),
            n,
        ),
    decreases n,
{
    broadcast use group_to_multiset_ensures;

    let all = features::threats_below(p, pov, s, n);
    if n > 0 {
        let fewer = features::threats_below(p, pov, s, (n - 1) as nat);
        lemma_threats_multiset(p, pov, s, (n - 1) as nat, v);
        if features::is_active(p, pov, s, n - 1) {
            features::lemma_active_range(p, pov, s, n - 1);
            let last = (THREAT_BASE + features::threat_at(p, pov, s, n - 1)) as usize;
            assert(all.to_multiset() =~= fewer.to_multiset().insert(last));
        }
    }
}

/// How often `v` is a feature of the pieces on squares below `n`.
pub proof fn lemma_features_multiset(p: Position, pov: Color, n: nat, v: usize)
    requires
        p.wf(),
        n <= 64,
    ensures
        features::features_below(p, pov, n).to_multiset().count(v) == sums::sum(
            |s: int| feature_count(p, pov, s, v),
            n,
        ),
    decreases n,
{
    broadcast use group_to_multiset_ensures;

    if n > 0 {
        let s = n - 1;
        let fewer = features::features_below(p, pov, (n - 1) as nat);
        lemma_features_multiset(p, pov, (n - 1) as nat, v);
        if bits::member(p.occ, s) {
            let pst = features::pst_at(p, pov, s) as usize;
            let own = features::threats_below(p, pov, s, 64);
            features::lemma_pst_range(
                p.pieces[s].side(),
                p.pieces[s].kind(),
                s,
                p.king_of(pov),
                pov,
            );
            lemma_threats_multiset(p, pov, s, 64, v);
            lemma_multiset_commutative(fewer.push(pst), own);
            assert(fewer.push(pst).to_multiset() =~= fewer.to_multiset().insert(pst));
        } else {
            sums::lemma_sum_zero(|t: int| threat_count(p, pov, s, t, v), 64);
        }
    }
}

/// A turned square is seen by the other player as the square itself is by the first one.
proof fn lemma_turned_square(s: int, pov: Color, mirrored: bool)
    requires
        0 <= s < 64,
    ensures
        0 <= types::flip_ranks(s) < 64,
        types::flip_ranks(types::flip_ranks(s)) == s,
        types::file_of(types::flip_ranks(s)) == types::file_of(s),
        threats::oriented_square(types::flip_ranks(s), pov.opposite(), mirrored)
            == threats::oriented_square(s, pov, mirrored),
{
}

proof fn lemma_turned_piece(piece: Piece, pov: Color)
    requires
        piece.wf(),
    ensures
        recoloured(piece).wf(),
        recoloured(piece).kind() == piece.kind(),
        recoloured(piece).side() == piece.side().opposite(),
        threats::oriented_piece(recoloured(piece), pov.opposite()) == threats::oriented_piece(
            piece,
            pov,
        ),
{
}

/// A piece has the same piece-square feature on the turned board.
proof fn lemma_turned_pst(p: Position, q: Position, pov: Color, s: int, v: usize)
    requires
        p.wf(),
        q.wf(),
        is_turned(p, q),
        0 <= s < 64,
    ensures
        pst_count(p, pov, s, v) == pst_count(q, pov.opposite(), types::flip_ranks(s), v),
{
    let king = p.king_of(pov);
    lemma_turned_square(king, pov, features::is_mirrored(king));
    lemma_turned_square(s, pov, features::is_mirrored(king));
    assert(p.pieces[s].wf());
    lemma_turned_piece(p.pieces[s], pov);
    assert(q.king_of(pov.opposite()) == types::flip_ranks(king));
    assert(bits::member(p.occ, s) <==> bits::member(q.occ, types::flip_ranks(s)));
}

/// A threat is the same feature on the turned board.
proof fn lemma_turned_threat(p: Position, q: Position, pov: Color, s: int, t: int, v: usize)
    requires
        p.wf(),
        q.wf(),
        is_turned(p, q),
        0 <= s < 64,
        0 <= t < 64,
    ensures
        threat_count(p, pov, s, t, v) == threat_count(
            q,
            pov.opposite(),
            types::flip_ranks(s),
            types::flip_ranks(t),
            v,
        ),
{
    let king = p.king_of(pov);
    let mirrored = features::is_mirrored(king);
    lemma_turned_square(king, pov, mirrored);
    lemma_turned_square(s, pov, mirrored);
    lemma_turned_square(t, pov, mirrored);
    assert(p.pieces[s].wf() && p.pieces[t].wf());
    lemma_turned_piece(p.pieces[s], pov);
    lemma_turned_piece(p.pieces[t], pov);
    assert(q.king_of(pov.opposite()) == types::flip_ranks(king));
    assert(bits::member(p.occ, s) <==> bits::member(q.occ, types::flip_ranks(s)));
    assert(bits::member(p.occ, t) <==> bits::member(q.occ, types::flip_ranks(t)));
    geometry::lemma_attacks_flipped(
        p.pieces[s].kind(),
        p.pieces[s].side(),
        s,
        t,
        p.occ,
        q.occ,
    );
}

/// A piece has the same features on the turned board.
proof fn lemma_turned_feature(p: Position, q: Position, pov: Color, s: int, v: usize)
    requires
        p.wf(),
        q.wf(),
        is_turned(p, q),
        0 <= s < 64,
    ensures
        feature_count(p, pov, s, v) == feature_count(q, pov.opposite(), types::flip_ranks(s), v),
{
    let opp = pov.opposite();
    let fs = types::flip_ranks(s);
    lemma_turned_pst(p, q, pov, s, v);
    let f = |t: int| threat_count(p, pov, s, t, v);
    let g = |t: int| threat_count(q, opp, fs, t, v);
    let h = |t: int| g(types::flip_ranks(t));
    assert forall|t: int| 0 <= t < 64 implies #[trigger] f(t) == h(t) by {
        lemma_turned_threat(p, q, pov, s, t, v);
    }
    sums::lemma_sum_equal(f, h, 64);
    sums::lemma_sum_flip(g);
}

/// Turning the board over and exchanging the colours exchanges the two players' features.
pub proof fn lemma_turned_features(p: Position, q: Position, pov: Color)
    requires
        p.wf(),
        q.wf(),
        is_turned(p, q),
    ensures
        features::features_of(p, pov).to_multiset() == features::features_of(
            q,
            pov.opposite(),
        ).to_multiset(),
{
    let (a, b) = (
        features::features_of(p, pov).to_multiset(),
        features::features_of(q, pov.opposite()).to_multiset(),
    );
    assert forall|v: usize| a.count(v) == b.count(v) by {
        lemma_features_multiset(p, pov, 64, v);
        lemma_features_multiset(q, pov.opposite(), 64, v);
        let f = |s: int| feature_count(p, pov, s, v);
        let g = |s: int| feature_count(q, pov.opposite(), s, v);
        let h = |s: int| g(types::flip_ranks(s));
        assert forall|s: int| 0 <= s < 64 implies #[trigger] f(s) == h(s) by {
            lemma_turned_feature(p, q, pov, s, v);
        }
        sums::lemma_sum_equal(f, h, 64);
        sums::lemma_sum_flip(g);
    }
    assert(a =~= b);
}

/// A packed position read as White's to move is the one read as Black's to move with the board
/// turned over and the colours exchanged, as long as each side has exactly one king.
pub proof fn lemma_turned_reading(pieces: Seq<(u8, u8)>)
    requires
        board::are_pieces(pieces),
        board::squares_distinct(pieces),
        board::has_both_kings(pieces),
    ensures
        is_turned(
            Position::of_sets(board::piece_sets(pieces, false)),
            Position::of_sets(board::piece_sets(pieces, true)),
        ),
{
    let p = Position::of_sets(board::piece_sets(pieces, false));
    let q = Position::of_sets(board::piece_sets(pieces, true));
    assert forall|s: int| 0 <= s < 64 implies {
        &&& #[trigger] bits::member(p.occ, s) <==> bits::member(q.occ, types::flip_ranks(s))
        &&& bits::member(p.occ, s) ==> q.pieces[types::flip_ranks(s)] == recoloured(p.pieces[s])
    } by {
        lemma_turned_square(s, Color::White, false);
        if bits::member(p.occ, s) {
            let i = board::lemma_occupied(pieces, false, s);
            assert(pieces[i].0 % 8 < 6);
            board::lemma_entry(pieces, false, i);
            board::lemma_entry(pieces, true, i);
            let (a, b) = (p.pieces[s], q.pieces[types::flip_ranks(s)]);
            assert(a.0 == board::code_piece(pieces[i].0, false));
            assert(b.0 == board::code_piece(pieces[i].0, true));
            assert(b.0 == recoloured(a).0);
        }
        if bits::member(q.occ, types::flip_ranks(s)) {
            let i = board::lemma_occupied(pieces, true, types::flip_ranks(s));
            board::lemma_entry(pieces, false, i);
            assert(pieces[i].1 < 64);
            lemma_turned_square(pieces[i].1 as int, Color::White, false);
        }
    }
    let i = choose|i: int| board::is_only(pieces, board::OWN_KING, i);
    let j = choose|j: int| board::is_only(pieces, board::OTHER_KING, j);
    board::lemma_king(pieces, false, board::OWN_KING, i);
    board::lemma_king(pieces, true, board::OWN_KING, i);
    board::lemma_king(pieces, false, board::OTHER_KING, j);
    board::lemma_king(pieces, true, board::OTHER_KING, j);
}

} // verus!
