//! The active features of a position, as each player sees them.
use vstd::prelude::*;

use crate::bits;
use crate::board::{AresBoard, Position};
use crate::geometry;
use crate::tables::Tables;
use crate::tables;
use crate::threats;
use crate::threats::{ThreatLut, NUM_THREATS};
use crate::types;
use crate::types::{Bitboard, Color, Piece, PieceType, Square};

verus! {

/// How many king buckets there are.
pub const INPUT_BUCKETS: usize = 10;

/// How many piece-square features there are.
pub const PST_SIZE: usize = 7680;

/// The number of the first threat feature.
pub const THREAT_BASE: usize = 7680;

/// How many features there are in all.
pub const NUM_INPUTS: usize = 74544;

/// The number of features, written out.
pub const NUM_INPUTS_TEXT: &'static str = "74544";

/// The decimal digits of a number.
pub open spec fn decimal(n: nat) -> Seq<char>
    decreases n,
{
    let digit = ('0' as int + n % 10) as char;
    if n < 10 {
        seq![digit]
    } else {
        decimal(n / 10).push(digit)
    }
}

/// The text is the number of features in decimal digits.
pub proof fn lemma_num_inputs_text()
    ensures
        NUM_INPUTS_TEXT@ == decimal(NUM_INPUTS as nat),
{
    reveal_strlit("74544");
    assert(decimal(7) =~= seq!['7']);
    assert(decimal(74) =~= seq!['7', '4']);
    assert(decimal(745) =~= seq!['7', '4', '5']);
    assert(decimal(7454) =~= seq!['7', '4', '5', '4']);
    assert(decimal(74544) =~= seq!['7', '4', '5', '4', '4']);
    assert(NUM_INPUTS_TEXT@ =~= seq!['7', '4', '5', '4', '4']);
}

/// The bucket of a king, by the square on which its own player sees it.
pub const INPUT_BUCKETS_LAYOUT: [u8; 64] = [
    0, 1, 2, 3, 3, 2, 1, 0,
    4, 5, 6, 7, 7, 6, 5, 4,
    8, 8, 8, 8, 8, 8, 8, 8,
    9, 9, 9, 9, 9, 9, 9, 9,
    9, 9, 9, 9, 9, 9, 9, 9,
    9, 9, 9, 9, 9, 9, 9, 9,
    9, 9, 9, 9, 9, 9, 9, 9,
    9, 9, 9, 9, 9, 9, 9, 9,
];

/// Whether a king on this square makes its player see the board in a mirror.
pub open spec fn is_mirrored(king: int) -> bool {
    types::file_of(king) >= 4
}

/// The number of the feature "a piece of this kind and colour stands on `square`" for a player
/// whose king is on `king`.
pub open spec fn pst_number(
    color: Color,
    kind: PieceType,
    square: int,
    king: int,
    pov: Color,
) -> int {
    768 * INPUT_BUCKETS_LAYOUT[threats::oriented_square(king, pov, is_mirrored(king))] + (if color
        != pov {
        384int
    } else {
        0
    }) + 64 * kind.number() + threats::oriented_square(square, pov, is_mirrored(king))
}

spec fn layout_inside(n: int) -> bool
    decreases n,
{
    n <= 0 || (INPUT_BUCKETS_LAYOUT[n - 1] < INPUT_BUCKETS && layout_inside(n - 1))
}

proof fn lemma_layout_inside()
    by (bit_vector)
    ensures
        layout_inside(64),
{
}

proof fn lemma_layout(i: int, n: int)
    requires
        0 <= i < n,
        layout_inside(n),
    ensures
        INPUT_BUCKETS_LAYOUT[i] < INPUT_BUCKETS,
    decreases n,
{
    if i < n - 1 {
        lemma_layout(i, n - 1);
    }
}

/// Piece-square features have the numbers below `PST_SIZE`.
pub proof fn lemma_pst_range(color: Color, kind: PieceType, square: int, king: int, pov: Color)
    requires
        0 <= square < 64,
        0 <= king < 64,
    ensures
        0 <= pst_number(color, kind, square, king, pov) < PST_SIZE,
{
    lemma_layout_inside();
    lemma_layout(threats::oriented_square(king, pov, is_mirrored(king)), 64);
}

/// The number of the feature "a piece of this kind and colour stands on `square`" for a player
/// whose king is on `king`.
pub fn pst_index(color: Color, piece: PieceType, square: Square, king: Square, pov: Color) -> (r:
    usize)
    requires
        square.wf(),
        king.wf(),
    ensures
        r == pst_number(color, piece, square.0 as int, king.0 as int, pov),
{
    let side: u8 = if king.is_kingside() {
        7
    } else {
        0
    };
    let rank: u8 = match pov {
        Color::White => 0,
        Color::Black => 56,
    };
    let flip: u8 = side ^ rank;
    proof {
        types::lemma_byte_table(side, 0);
        types::lemma_byte_table(rank, 0);
        lemma_flip(king.0, side, rank);
        lemma_flip(square.0, side, rank);
        lemma_pst_range(color, piece, square.0 as int, king.0 as int, pov);
        lemma_layout_inside();
        lemma_layout((king.0 ^ flip) as int, 64);
    }
    let bucket: usize = INPUT_BUCKETS_LAYOUT[(king.0 ^ flip) as usize] as usize;
    let other: usize = if color != pov {
        1
    } else {
        0
    };
    bucket * 768 + 384 * other + 64 * piece.index() + (square.0 ^ flip) as usize
}

proof fn lemma_flip(v: u8, side: u8, rank: u8)
    requires
        v < 64,
        side == 0 || side == 7,
        rank == 0 || rank == 56,
    ensures
        (v ^ (side ^ rank)) < 64,
        v ^ (side ^ rank) == threats::oriented_square(
            v as int,
            if rank == 0 {
                Color::White
            } else {
                Color::Black
            },
            side == 7,
        ),
{
    types::lemma_byte_table(v, 0);
    types::lemma_byte_table(v ^ 56, 0);
    types::lemma_byte_table(side, 0);
    types::lemma_byte_table(rank, 0);
}

/// Whether the piece on `s` attacks the piece on `t`.
pub open spec fn is_threat(p: Position, s: int, t: int) -> bool {
    bits::member(p.occ, s) && bits::member(p.occ, t) && geometry::attacks(
        p.pieces[s].kind(),
        p.pieces[s].side(),
        s,
        t,
        p.occ,
    )
}

/// The number of the threat of the piece on `s` against the piece on `t`, for the player of colour
/// `pov`; negative if it is left out.
pub open spec fn threat_at(p: Position, pov: Color, s: int, t: int) -> int {
    threats::threat_number_for(
        p.pieces[s],
        s,
        p.pieces[t],
        t,
        is_mirrored(p.king_of(pov)),
        pov,
    )
}

/// Whether the threat of the piece on `s` against the piece on `t` is an active feature for the
/// player of colour `pov`.
pub open spec fn is_active(p: Position, pov: Color, s: int, t: int) -> bool {
    is_threat(p, s, t) && threat_at(p, pov, s, t) >= 0
}

/// The threat features of the piece on `s` against pieces on squares below `n`.
pub open spec fn threats_below(p: Position, pov: Color, s: int, n: nat) -> Seq<usize>
    decreases n,
{
    if n == 0 {
        Seq::empty()
    } else {
        let fewer = threats_below(p, pov, s, (n - 1) as nat);
        if is_active(p, pov, s, n - 1) {
            fewer.push((THREAT_BASE + threat_at(p, pov, s, n - 1)) as usize)
        } else {
            fewer
        }
    }
}

/// The piece-square feature of the piece on `s`.
pub open spec fn pst_at(p: Position, pov: Color, s: int) -> int {
    pst_number(p.pieces[s].side(), p.pieces[s].kind(), s, p.king_of(pov), pov)
}

/// The features of the pieces on squares below `n`: each piece's own square, then its threats.
pub open spec fn features_below(p: Position, pov: Color, n: nat) -> Seq<usize>
    decreases n,
{
    if n == 0 {
        Seq::empty()
    } else {
        let fewer = features_below(p, pov, (n - 1) as nat);
        if bits::member(p.occ, n - 1) {
            fewer.push(pst_at(p, pov, n - 1) as usize) + threats_below(p, pov, n - 1, 64)
        } else {
            fewer
        }
    }
}

/// The active features of a position for the player of colour `pov`, square by square.
pub open spec fn features_of(p: Position, pov: Color) -> Seq<usize> {
    features_below(p, pov, 64)
}

proof fn lemma_no_threats(p: Position, pov: Color, s: int, m: nat, n: nat)
    requires
        m <= n,
        forall|t: int| m <= t < n ==> !is_threat(p, s, t),
    ensures
        threats_below(p, pov, s, m) == threats_below(p, pov, s, n),
    decreases n,
{
    if m < n {
        assert(!is_threat(p, s, n - 1));
        lemma_no_threats(p, pov, s, m, (n - 1) as nat);
    }
}

proof fn lemma_no_pieces(p: Position, pov: Color, m: nat, n: nat)
    requires
        m <= n,
        forall|s: int| m <= s < n ==> !bits::member(p.occ, s),
    ensures
        features_below(p, pov, m) == features_below(p, pov, n),
    decreases n,
{
    if m < n {
        assert(!bits::member(p.occ, n - 1));
        lemma_no_pieces(p, pov, m, (n - 1) as nat);
    }
}

/// Turning the board for a player keeps what the pieces reach.
pub proof fn lemma_oriented_reach(piece: Piece, s: int, t: int, pov: Color, mirrored: bool)
    requires
        piece.wf(),
        0 <= s < 64,
        0 <= t < 64,
    ensures
        ({
            let q = threats::oriented_piece(piece, pov);
            geometry::reaches(piece.kind(), piece.side(), s, t) <==> geometry::reaches(
                q.kind(),
                q.side(),
                threats::oriented_square(s, pov, mirrored),
                threats::oriented_square(t, pov, mirrored),
            )
        }),
        0 <= threats::oriented_square(s, pov, mirrored) < 64,
        threats::oriented_piece(piece, pov).wf(),
{
    threats::lemma_oriented_square(s, pov, mirrored);
    threats::lemma_oriented_piece(piece, pov);
    lemma_oriented_steps(s, t, pov, mirrored);
    let (df, dr) = (geometry::file_step(s, t), geometry::rank_step(s, t));
    geometry::lemma_reaches_by(piece.kind(), piece.side(), df, dr);
}

/// The way between two squares as a player sees them.
proof fn lemma_oriented_steps(s: int, t: int, pov: Color, mirrored: bool)
    requires
        0 <= s < 64,
        0 <= t < 64,
    ensures
        ({
            let (a, b) = (
                threats::oriented_square(s, pov, mirrored),
                threats::oriented_square(t, pov, mirrored),
            );
            &&& geometry::file_step(a, b) == if mirrored {
                -geometry::file_step(s, t)
            } else {
                geometry::file_step(s, t)
            }
            &&& geometry::rank_step(a, b) == if pov is Black {
                -geometry::rank_step(s, t)
            } else {
                geometry::rank_step(s, t)
            }
        }),
{
    threats::lemma_oriented_square(s, pov, mirrored);
    threats::lemma_oriented_square(t, pov, mirrored);
}

/// A threat that is active has a number below the number of threats.
pub proof fn lemma_active_range(p: Position, pov: Color, s: int, t: int)
    requires
        p.wf(),
        is_threat(p, s, t),
    ensures
        threat_at(p, pov, s, t) < NUM_THREATS,
        0 <= s < 64,
        0 <= t < 64,
{
    let mirrored = is_mirrored(p.king_of(pov));
    assert(p.pieces[s].wf() && p.pieces[t].wf());
    lemma_oriented_reach(p.pieces[s], s, t, pov, mirrored);
    lemma_oriented_reach(p.pieces[t], t, s, pov, mirrored);
    threats::lemma_threat_range(
        threats::oriented_piece(p.pieces[s], pov),
        threats::oriented_square(s, pov, mirrored),
        threats::oriented_piece(p.pieces[t], pov),
        threats::oriented_square(t, pov, mirrored),
    );
}

/// The attack tables and the numbering of threats, computed once.
pub struct Lookup {
    pub tables: Tables,
    pub lut: ThreatLut,
}

impl Lookup {
    /// Computes the tables.
    pub fn new() -> (r: Self)
        ensures
            r.tables.wf(),
            r.lut.wf(),
    {
        let tables: Tables = tables::tables();
        let lut: ThreatLut = threats::threat_lut(&tables);
        Lookup { tables, lut }
    }
}

/// Appends the threat features of the piece on `square` to `out`.
fn push_threats(
    lookup: &Lookup,
    board: &AresBoard,
    pov: Color,
    square: Square,
    out: &mut Vec<usize>,
)
    requires
        square.wf(),
        bits::member(board@.occ, square.0 as int),
    ensures
        final(out)@ == old(out)@ + threats_below(board@, pov, square.0 as int, 64),
{
    let ghost (p, s) = (board@, square.0 as int);
    proof {
        use_type_invariant(board);
    }
    let occ: Bitboard = Bitboard(board.occ());
    let piece: Piece = board.piece(square);
    let mirrored: bool = board.king_square(pov).is_kingside();
    let attacked: Bitboard = lookup.tables.attacks(piece, square, occ);
    let mut targets: Bitboard = attacked & occ;
    let ghost mut k: nat = 0;
    proof {
        assert forall|t: int| #[trigger] bits::member(targets.0, t) <==> k <= t < 64 && is_threat(
            p,
            s,
            t,
        ) by {
            if 0 <= t < 64 {
                bits::lemma_has_ops(attacked.0, occ.0, t);
            }
        }
        assert(out@ =~= out@ + threats_below(p, pov, s, 0));
    }
    while targets.0 != 0
        invariant
            p == board@,
            p.wf(),
            s == square.0,
            square.wf(),
            piece == p.pieces[s],
            mirrored == is_mirrored(p.king_of(pov)),
            k <= 64,
            forall|t: int| #[trigger]
                bits::member(targets.0, t) <==> k <= t < 64 && is_threat(p, s, t),
            out@ == old(out)@ + threats_below(p, pov, s, k),
        decreases 64 - k,
    {
        let ghost before = targets.0;
        let next: Option<Square> = targets.next();
        if let Some(target) = next {
            let ghost t = target.0 as int;
            proof {
                assert forall|u: int| k <= u < t implies !is_threat(p, s, u) by {
                    assert(!bits::member(before, u));
                }
                lemma_no_threats(p, pov, s, k, t as nat);
                lemma_active_range(p, pov, s, t);
            }
            let other: Piece = board.piece(target);
            let index: isize = lookup.lut.threat_index(piece, square, other, target, mirrored, pov);
            let ghost old_out = out@;
            if index >= 0 {
                out.push(THREAT_BASE + index as usize);
            }
            proof {
                k = (t + 1) as nat;
                assert(out@ =~= old(out)@ + threats_below(p, pov, s, k));
                assert forall|u: int| #[trigger] bits::member(targets.0, u) <==> k <= u < 64
                    && is_threat(p, s, u) by {
                    if bits::member(before, u) {
                        assert(u >= t);
                    }
                }
            }
        }
    }
    proof {
        assert forall|u: int| k <= u < 64 implies !is_threat(p, s, u) by {
            bits::lemma_has_ops(0, 0, u);
            assert(!bits::member(targets.0, u));
        }
        lemma_no_threats(p, pov, s, k, 64);
    }
}

/// The active features of a position for the player of colour `pov`, square by square: each
/// piece's own square, then its threats.
pub fn features_for_pov(lookup: &Lookup, board: &AresBoard, pov: Color) -> (out: Vec<usize>)
    ensures
        out@ == features_of(board@, pov),
{
    let ghost p = board@;
    proof {
        use_type_invariant(board);
    }
    let mut out: Vec<usize> = Vec::new();
    let king: Square = board.king_square(pov);
    let mut squares: Bitboard = Bitboard(board.occ());
    let ghost mut k: nat = 0;
    while squares.0 != 0
        invariant
            p == board@,
            p.wf(),
            king.wf(),
            king.0 == p.king_of(pov),
            k <= 64,
            forall|s: int| #[trigger]
                bits::member(squares.0, s) <==> k <= s < 64 && bits::member(p.occ, s),
            out@ == features_below(p, pov, k),
        decreases 64 - k,
    {
        let ghost before = squares.0;
        let next: Option<Square> = squares.next();
        if let Some(square) = next {
            let ghost s = square.0 as int;
            proof {
                assert forall|u: int| k <= u < s implies !bits::member(p.occ, u) by {
                    assert(!bits::member(before, u));
                }
                lemma_no_pieces(p, pov, k, s as nat);
            }
            let piece: Piece = board.piece(square);
            out.push(pst_index(piece.color(), piece.piece_type(), square, king, pov));
            push_threats(lookup, board, pov, square, &mut out);
            proof {
                k = (s + 1) as nat;
                assert forall|u: int| #[trigger] bits::member(squares.0, u) <==> k <= u < 64
                    && bits::member(p.occ, u) by {
                    if bits::member(before, u) {
                        assert(u >= s);
                    }
                }
            }
        }
    }
    proof {
        assert forall|u: int| k <= u < 64 implies !bits::member(p.occ, u) by {
            bits::lemma_has_ops(0, 0, u);
            assert(!bits::member(squares.0, u));
        }
        lemma_no_pieces(p, pov, k, 64);
    }
    out
}

} // verus!
