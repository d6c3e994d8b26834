//! What the numbers of the features mean, in terms of files, ranks and pieces.
use vstd::prelude::*;

use crate::bits;
use crate::board::Position;
use crate::features;
use crate::geometry;
use crate::laws;
use crate::reach;
use crate::threats;
use crate::types::{Color, Piece, PieceType};

verus! {

/// The square on which a player sees a square: Black sees the ranks reversed, and a player whose
/// king is on one of the files e to h sees the files reversed.
proof fn lemma_seen_square(s: int, king: int, pov: Color)
    requires
        0 <= s < 64,
        0 <= king < 64,
    ensures
        ({
            let v = threats::oriented_square(s, pov, features::is_mirrored(king));
            &&& 0 <= v < 64
            &&& v % 8 == if king % 8 >= 4 {
                7 - s % 8
            } else {
                s % 8
            }
            &&& v / 8 == if pov is Black {
                7 - s / 8
            } else {
                s / 8
            }
            &&& v == 8 * (v / 8) + v % 8
        }),
{
    threats::lemma_oriented_square(s, pov, features::is_mirrored(king));
}

spec fn layout_from(n: int) -> bool
    decreases 64 - n,
{
    n >= 64 || (features::INPUT_BUCKETS_LAYOUT[n] == (if n >= 24 {
        9int
    } else if n >= 16 {
        8
    } else if n % 8 < 4 {
        4 * (n / 8) + n % 8
    } else {
        4 * (n / 8) + 7 - n % 8
    }) && layout_from(n + 1))
}

proof fn lemma_layout_from()
    by (bit_vector)
    ensures
        layout_from(0),
{
}

proof fn lemma_layout_at(n: int, k: int)
    requires
        0 <= k <= n < 64,
        layout_from(k),
    ensures
        features::INPUT_BUCKETS_LAYOUT[n] == (if n >= 24 {
            9int
        } else if n >= 16 {
            8
        } else if n % 8 < 4 {
            4 * (n / 8) + n % 8
        } else {
            4 * (n / 8) + 7 - n % 8
        }),
    decreases n - k,
{
    if k < n {
        lemma_layout_at(n, k + 1);
    }
}

/// The bucket of a king is that of its rank and of its distance from the edge: on the first two
/// ranks, as its player counts them, there is a bucket for each distance, on the third rank one for
/// all the squares, and one more for the rest of the board.
pub proof fn lemma_bucket(n: int)
    requires
        0 <= n < 64,
    ensures
        n / 8 >= 3 ==> features::INPUT_BUCKETS_LAYOUT[n] == 9,
        n / 8 == 2 ==> features::INPUT_BUCKETS_LAYOUT[n] == 8,
        n / 8 < 2 && n % 8 < 4 ==> features::INPUT_BUCKETS_LAYOUT[n] == 4 * (n / 8) + n % 8,
        n / 8 < 2 && n % 8 >= 4 ==> features::INPUT_BUCKETS_LAYOUT[n] == 4 * (n / 8) + 7 - n % 8,
{
    lemma_layout_from();
    lemma_layout_at(n, 0);
}

/// What can be read off the number of a piece-square feature: the bucket of the player's own king,
/// whether the piece is the player's own, its kind, and the file and the rank on which the player
/// sees it.
pub proof fn lemma_pst_digits(color: Color, kind: PieceType, square: int, king: int, pov: Color)
    requires
        0 <= square < 64,
        0 <= king < 64,
    ensures
        ({
            let v = features::pst_number(color, kind, square, king, pov);
            let king_rank = if pov is Black {
                7 - king / 8
            } else {
                king / 8
            };
            let edge = if king % 8 < 4 {
                king % 8
            } else {
                7 - king % 8
            };
            &&& 0 <= v < 7680
            &&& v / 768 == if king_rank < 2 {
                4 * king_rank + edge
            } else if king_rank == 2 {
                8
            } else {
                9
            }
            &&& (v % 768 / 384 == 1 <==> color != pov)
            &&& (v % 768 / 384 == 0 <==> color == pov)
            &&& (v % 384 / 64 == 0 <==> kind is Pawn)
            &&& (v % 384 / 64 == 1 <==> kind is Knight)
            &&& (v % 384 / 64 == 2 <==> kind is Bishop)
            &&& (v % 384 / 64 == 3 <==> kind is Rook)
            &&& (v % 384 / 64 == 4 <==> kind is Queen)
            &&& (v % 384 / 64 == 5 <==> kind is King)
            &&& v % 8 == if king % 8 >= 4 {
                7 - square % 8
            } else {
                square % 8
            }
            &&& v % 64 / 8 == if pov is Black {
                7 - square / 8
            } else {
                square / 8
            }
        }),
{
    lemma_seen_square(square, king, pov);
    lemma_seen_square(king, king, pov);
    lemma_bucket(threats::oriented_square(king, pov, features::is_mirrored(king)));
    let v = features::pst_number(color, kind, square, king, pov);
    let o = threats::oriented_square(square, pov, features::is_mirrored(king));
    let b = features::INPUT_BUCKETS_LAYOUT[threats::oriented_square(
        king,
        pov,
        features::is_mirrored(king),
    )] as int;
    let c = if color != pov {
        1int
    } else {
        0
    };
    let k = kind.number();
    assert(v == 768 * b + 384 * c + 64 * k + o);
    lemma_digits(b, c, k, o);
}

proof fn lemma_digits(b: int, c: int, k: int, o: int)
    requires
        0 <= b < 10,
        0 <= c < 2,
        0 <= k < 6,
        0 <= o < 64,
    ensures
        ({
            let v = 768 * b + 384 * c + 64 * k + o;
            &&& v / 768 == b
            &&& v % 768 / 384 == c
            &&& v % 384 / 64 == k
            &&& v % 64 == o
            &&& v % 8 == o % 8
            &&& 0 <= v < 7680
        }),
{
    let v = 768 * b + 384 * c + 64 * k + o;
    assert(v / 768 == b && v % 768 == 384 * c + 64 * k + o);
    assert(v % 384 == 64 * k + o);
    assert(v % 64 == o);
}

/// For one king, pieces of different colour, kind or square have different piece-square features.
pub proof fn lemma_pst_distinct(
    color: Color,
    kind: PieceType,
    square: int,
    color2: Color,
    kind2: PieceType,
    square2: int,
    king: int,
    pov: Color,
)
    requires
        0 <= square < 64,
        0 <= square2 < 64,
        0 <= king < 64,
        features::pst_number(color, kind, square, king, pov) == features::pst_number(
            color2,
            kind2,
            square2,
            king,
            pov,
        ),
    ensures
        color == color2,
        kind == kind2,
        square == square2,
{
    lemma_pst_digits(color, kind, square, king, pov);
    lemma_pst_digits(color2, kind2, square2, king, pov);
    assert(square == 8 * (square / 8) + square % 8);
    assert(square2 == 8 * (square2 / 8) + square2 % 8);
}

/// What each kind of piece attacks, by files and ranks: a piece that slides stops at the first
/// occupied square. One step on the way changes the number of the square by `d`.
pub proof fn lemma_attack_steps(
    kind: PieceType,
    side: Color,
    s: int,
    t: int,
    d: int,
    occ: u64,
)
    requires
        0 <= s < 64,
        0 <= t < 64,
        d == (if t / 8 > s / 8 {
            8int
        } else if t / 8 < s / 8 {
            -8int
        } else {
            0int
        }) + (if t % 8 > s % 8 {
            1int
        } else if t % 8 < s % 8 {
            -1int
        } else {
            0int
        }),
    ensures
        ({
            let (df, dr) = (t % 8 - s % 8, t / 8 - s / 8);
            let free = forall|k: int|
                1 <= k && (k < df || k < -df || k < dr || k < -dr) ==> !bits::member(
                    occ,
                    #[trigger] geometry::ray(s, d, k),
                );
            let straight = (df == 0 && dr != 0) || (df != 0 && dr == 0);
            let diagonal = df != 0 && (df == dr || df == -dr);
            geometry::attacks(kind, side, s, t, occ) <==> match kind {
                PieceType::Pawn => (df == 1 || df == -1) && dr == (if side is White {
                    1int
                } else {
                    -1int
                }),
                PieceType::Knight => ((df == 1 || df == -1) && (dr == 2 || dr == -2)) || ((df == 2
                    || df == -2) && (dr == 1 || dr == -1)),
                PieceType::Bishop => diagonal && free,
                PieceType::Rook => straight && free,
                PieceType::Queen => (straight || diagonal) && free,
                PieceType::King => s != t && -1 <= df <= 1 && -1 <= dr <= 1,
            }
        }),
        forall|k: int| #[trigger] geometry::ray(s, d, k) == s + k * d,
        forall|u: int| #[trigger] bits::member(occ, u) <==> 0 <= u < 64 && (occ >> (u as u64)) & 1
            == 1,
{
    let (df, dr) = (t % 8 - s % 8, t / 8 - s / 8);
    assert(s == 8 * (s / 8) + s % 8 && t == 8 * (t / 8) + t % 8);
    assert(geometry::file_step(s, t) == df && geometry::rank_step(s, t) == dr);
    let n = geometry::distance(s, t);
    assert(d == geometry::direction(s, t));
    assert(n == geometry::abs(df) || n == geometry::abs(dr));
    assert(n >= df && n >= -df && n >= dr && n >= -dr);
}

/// The number of the first threat of one piece against another one, the player's own pieces being
/// the white ones.
proof fn lemma_pair_base(a: Piece, d: Piece)
    requires
        a.wf(),
        d.wf(),
        !threats::is_excluded(a, d),
    ensures
        ({
            let (first, half, span) = match a.kind() {
                PieceType::Pawn => (0int, 3int, 84int),
                PieceType::Knight => (504, 5, 336),
                PieceType::Bishop => (3864, 4, 560),
                PieceType::Rook => (8344, 4, 896),
                PieceType::Queen => (15512, 5, 1456),
                PieceType::King => (30072, 4, 420),
            };
            let place = match d.kind() {
                PieceType::Pawn => 0int,
                PieceType::Knight => 1,
                PieceType::Bishop => 2,
                PieceType::Rook => if a.kind() is Pawn {
                    2
                } else {
                    3
                },
                _ => 4,
            };
            &&& threats::pair_base(a, d) == first + (if a.side() is White {
                0int
            } else {
                33432
            }) + (place + if d.side() is White {
                0int
            } else {
                half
            }) * span
            &&& 0 <= threats::pair_base(a, d) < 0x100_0000
        }),
{
    threats::lemma_first_threats();
    reach::lemma_spans();
    let n = threats::piece_order(a);
    let (an, dn) = (a.kind().number(), d.kind().number());
    assert(dn == 0 || dn == 1 || dn == 2 || dn == 3 || dn == 4 || dn == 5);
    assert(an == 0 || an == 1 || an == 2 || an == 3 || an == 4 || an == 5);
    let m = d.side().number() * (threats::target_count(a.kind()) / 2) + threats::place(
        a.kind(),
        d.kind(),
    );
    assert(d.side() is White ==> m == threats::place(a.kind(), d.kind()));
    assert(d.side() is Black ==> m == threats::target_count(a.kind()) / 2 + threats::place(
        a.kind(),
        d.kind(),
    ));
    assert(0 <= m <= 9);
    assert(a == Piece(a.0));
    let span = reach::span(a) as int;
    assert(span <= 1456);
    assert(0 <= m * span <= 9 * 1456) by (nonlinear_arith)
        requires
            0 <= m <= 9,
            0 <= span <= 1456,
    ;
}

/// Which kinds of pieces have no numbered threats against which.
pub proof fn lemma_excluded(a: Piece, d: Piece)
    requires
        a.wf(),
        d.wf(),
    ensures
        threats::is_excluded(a, d) <==> d.kind() is King || (a.kind() is Pawn && (d.kind() is Bishop
            || d.kind() is Queen)) || (d.kind() is Queen && !(a.kind() is Knight || a.kind() is Queen)),
{
    let (an, dn) = (a.kind().number(), d.kind().number());
    assert(an == 0 || an == 1 || an == 2 || an == 3 || an == 4 || an == 5);
    assert(dn == 0 || dn == 1 || dn == 2 || dn == 3 || dn == 4 || dn == 5);
}

/// A player sees a square where its file and its rank are seen.
proof fn lemma_seen_number(s: int, king: int, pov: Color, from: int)
    requires
        0 <= s < 64,
        0 <= king < 64,
        0 <= from < 64,
        from % 8 == if king % 8 >= 4 {
            7 - s % 8
        } else {
            s % 8
        },
        from / 8 == if pov is Black {
            7 - s / 8
        } else {
            s / 8
        },
    ensures
        from == threats::oriented_square(s, pov, features::is_mirrored(king)),
{
    lemma_seen_square(s, king, pov);
    assert(from == 8 * (from / 8) + from % 8);
}

/// The colours and kinds of two pieces as a player sees them: the player's own are white.
pub proof fn lemma_seen_pair(a: Piece, d: Piece, pov: Color)
    requires
        a.wf(),
        d.wf(),
    ensures
        ({
            let (x, y) = (threats::oriented_piece(a, pov), threats::oriented_piece(d, pov));
            &&& x.wf()
            &&& y.wf()
            &&& x.kind() == a.kind()
            &&& y.kind() == d.kind()
            &&& x.side() is White <==> a.side() == pov
            &&& y.side() is White <==> d.side() == pov
            &&& threats::is_excluded(x, y) == threats::is_excluded(a, d)
        }),
{
    threats::lemma_oriented_piece(a, pov);
    threats::lemma_oriented_piece(d, pov);
}

/// Which threats are features for a player: a piece attacks another one, the kinds of the two have
/// numbered threats, and of two pieces of one kind that attack each other only the one on the higher
/// square, as the player sees it, counts. The player sees `s` on `from` and `t` on `to`.
pub proof fn lemma_threat_meaning(
    p: Position,
    pov: Color,
    s: int,
    t: int,
    from: int,
    to: int,
    v: usize,
)
    requires
        p.wf(),
        0 <= s < 64,
        0 <= t < 64,
        0 <= from < 64,
        0 <= to < 64,
        from % 8 == if p.king_of(pov) % 8 >= 4 {
            7 - s % 8
        } else {
            s % 8
        },
        to % 8 == if p.king_of(pov) % 8 >= 4 {
            7 - t % 8
        } else {
            t % 8
        },
        from / 8 == if pov is Black {
            7 - s / 8
        } else {
            s / 8
        },
        to / 8 == if pov is Black {
            7 - t / 8
        } else {
            t / 8
        },
    ensures
        ({
            let (a, d) = (p.pieces[s], p.pieces[t]);
            laws::is_threat_of(p, pov, s, t, v) <==> {
                &&& bits::member(p.occ, s)
                &&& bits::member(p.occ, t)
                &&& geometry::attacks(a.kind(), a.side(), s, t, p.occ)
                &&& !(d.kind() is King)
                &&& !(a.kind() is Pawn && (d.kind() is Bishop || d.kind() is Queen))
                &&& !(d.kind() is Queen && !(a.kind() is Knight || a.kind() is Queen))
                &&& !(a.kind() == d.kind() && !(a.kind() is Pawn && a.side() == d.side()) && from
                    < to)
                &&& v == 7680 + threats::threat_number(
                    threats::oriented_piece(a, pov),
                    from,
                    threats::oriented_piece(d, pov),
                    to,
                )
            }
        }),
{
    let (a, d) = (p.pieces[s], p.pieces[t]);
    assert(a.wf() && d.wf());
    let king = p.king_of(pov);
    lemma_seen_number(s, king, pov, from);
    lemma_seen_number(t, king, pov, to);
    lemma_excluded(a, d);
    if features::is_threat(p, s, t) {
        laws::lemma_dropped(p, pov, s, t);
    }
}

/// The number of a threat between pieces as a player sees them, the player's own being white: that
/// of the pair of pieces, by their kinds and by whether each is the player's own, plus the place of the attack among all the attacks of the piece on an empty board.
pub proof fn lemma_threat_number(a: Piece, d: Piece, from: int, to: int)
    requires
        a.wf(),
        d.wf(),
        0 <= from < 64,
        0 <= to < 64,
        !(d.kind() is King),
        !(a.kind() is Pawn && (d.kind() is Bishop || d.kind() is Queen)),
        !(d.kind() is Queen && !(a.kind() is Knight || a.kind() is Queen)),
        !(a.kind() == d.kind() && !(a.kind() is Pawn && a.side() == d.side()) && from < to),
    ensures
        ({
            let (first, half, span) = match a.kind() {
                PieceType::Pawn => (0int, 3int, 84int),
                PieceType::Knight => (504, 5, 336),
                PieceType::Bishop => (3864, 4, 560),
                PieceType::Rook => (8344, 4, 896),
                PieceType::Queen => (15512, 5, 1456),
                PieceType::King => (30072, 4, 420),
            };
            let place = match d.kind() {
                PieceType::Pawn => 0int,
                PieceType::Knight => 1,
                PieceType::Bishop => 2,
                PieceType::Rook => if a.kind() is Pawn {
                    2
                } else {
                    3
                },
                _ => 4,
            };
            threats::threat_number(a, from, d, to) == first + (if a.side() is White {
                0int
            } else {
                33432
            }) + (place + if d.side() is White {
                0int
            } else {
                half
            }) * span + reach::offset_below(a, from as nat) + reach::reach_below(
                a,
                from,
                to as nat,
            )
        }),
{
    lemma_excluded(a, d);
    lemma_pair_base(a, d);
    assert(!threats::is_dropped(a, from, d, to));
    assert(threats::threat_number(a, from, d, to) == threats::pair_base(a, d)
        + reach::offset_below(a, from as nat) + reach::reach_below(a, from, to as nat));
}

/// Every attack of a piece on another one whose kinds have numbered threats is listed, for both
/// players, unless it is the lower one of two mutual attacks.
pub proof fn lemma_threats_listed(p: Position, pov: Color, s: int, t: int, v: usize)
    requires
        p.wf(),
        0 <= s < 64,
        0 <= t < 64,
        bits::member(p.occ, s),
        bits::member(p.occ, t),
        geometry::attacks(p.pieces[s].kind(), p.pieces[s].side(), s, t, p.occ),
        threats::PIECE_INTERACTION_MAP[p.pieces[s].kind().number()][p.pieces[t].kind().number()]
            >= 0,
        p.pieces[s].kind() != p.pieces[t].kind() || (p.pieces[s].kind() is Pawn
            && p.pieces[s].side() == p.pieces[t].side()) || threats::oriented_square(
            s,
            pov,
            features::is_mirrored(p.king_of(pov)),
        ) > threats::oriented_square(t, pov, features::is_mirrored(p.king_of(pov))),
        v == 7680 + threats::threat_number_for(
            p.pieces[s],
            s,
            p.pieces[t],
            t,
            features::is_mirrored(p.king_of(pov)),
            pov,
        ),
    ensures
        features::features_of(p, pov).contains(v),
        v >= 7680,
{
    let king = p.king_of(pov);
    assert(p.pieces[s].wf() && p.pieces[t].wf());
    lemma_excluded(p.pieces[s], p.pieces[t]);
    lemma_seen_square(s, king, pov);
    lemma_seen_square(t, king, pov);
    assert(features::is_threat(p, s, t));
    laws::lemma_dropped(p, pov, s, t);
    assert(laws::is_threat_of(p, pov, s, t, v));
    assert(laws::is_feature_of(p, pov, s, v));
    laws::lemma_features_contain(p, pov, v);
}

/// The features from 7680 on are the threats, and those below are the squares of the pieces.
pub proof fn lemma_listed(p: Position, pov: Color, v: usize)
    requires
        p.wf(),
    ensures
        features::features_of(p, pov).contains(v) && v >= 7680 <==> exists|s: int, t: int|
            0 <= s < 64 && 0 <= t < 64 && #[trigger] laws::is_threat_of(p, pov, s, t, v),
        features::features_of(p, pov).contains(v) && v < 7680 <==> exists|s: int|
            #![trigger p.pieces[s]]
            0 <= s < 64 && bits::member(p.occ, s) && v == features::pst_number(
                p.pieces[s].side(),
                p.pieces[s].kind(),
                s,
                p.king_of(pov),
                pov,
            ),
{
    laws::lemma_features_contain(p, pov, v);
    if features::features_of(p, pov).contains(v) {
        laws::lemma_feature_range(p, pov, v);
        let s = choose|s: int| 0 <= s < 64 && #[trigger] laws::is_feature_of(p, pov, s, v);
        if laws::is_pst_of(p, pov, s, v) {
            assert(p.pieces[s] == p.pieces[s]);
        } else {
            let t = choose|t: int| 0 <= t < 64 && #[trigger] laws::is_threat_of(p, pov, s, t, v);
            assert(laws::is_threat_of(p, pov, s, t, v));
        }
    }
    if exists|s: int, t: int|
        0 <= s < 64 && 0 <= t < 64 && #[trigger] laws::is_threat_of(p, pov, s, t, v) {
        let (s, t) = choose|s: int, t: int|
            0 <= s < 64 && 0 <= t < 64 && #[trigger] laws::is_threat_of(p, pov, s, t, v);
        assert(laws::is_feature_of(p, pov, s, v));
        laws::lemma_feature_range(p, pov, v);
    }
    assert forall|s: int|
        #![trigger p.pieces[s]]
        0 <= s < 64 && bits::member(p.occ, s) && v == features::pst_number(
            p.pieces[s].side(),
            p.pieces[s].kind(),
            s,
            p.king_of(pov),
            pov,
        ) implies features::features_of(p, pov).contains(v) && v < 7680 by {
        assert(laws::is_pst_of(p, pov, s, v));
        assert(laws::is_feature_of(p, pov, s, v));
        laws::lemma_feature_range(p, pov, v);
    }
}

/// The attacks of a piece on an empty board are numbered by where they start, then by where they
/// end: of two attacks, the later one has the higher number, and both are below the number of all.
pub proof fn lemma_attack_order(piece: Piece, from: int, to: int, from2: int, to2: int)
    requires
        0 <= from < 64,
        0 <= to < 64,
        0 <= from2 < 64,
        0 <= to2 < 64,
        geometry::reaches(piece.kind(), piece.side(), from, to),
        geometry::reaches(piece.kind(), piece.side(), from2, to2),
        piece.kind() is Pawn ==> 8 <= from < 56 && 8 <= from2 < 56,
        from < from2 || (from == from2 && to < to2),
    ensures
        reach::offset_below(piece, from as nat) + reach::reach_below(piece, from, to as nat)
            < reach::offset_below(piece, from2 as nat) + reach::reach_below(
            piece,
            from2,
            to2 as nat,
        ),
        reach::offset_below(piece, from2 as nat) + reach::reach_below(piece, from2, to2 as nat)
            < reach::span(piece),
{
    reach::lemma_reach_strict(piece, from, to as nat, 64);
    reach::lemma_reach_strict(piece, from2, to2 as nat, 64);
    reach::lemma_offset_block(piece, from2 as nat, 64);
    if from < from2 {
        reach::lemma_offset_block(piece, from as nat, from2 as nat);
    } else {
        reach::lemma_reach_strict(piece, from, to as nat, to2 as nat);
    }
}

} // verus!
