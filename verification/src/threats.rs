//! The numbering of threats: which piece attacks which, from where to where.
use vstd::prelude::*;

use crate::bits;
use crate::geometry;
use crate::reach;
use crate::tables::Tables;
use crate::types;
use crate::types::{Bitboard, Color, Piece, PieceType, Square};

verus! {

/// For an attacking and an attacked kind of piece, the place of the pair among those that are
/// numbered, or -1 where it is not numbered.
pub const PIECE_INTERACTION_MAP: [[i32; 6]; 6] = [
    [0, 1, -1, 2, -1, -1],
    [0, 1, 2, 3, 4, -1],
    [0, 1, 2, 3, -1, -1],
    [0, 1, 2, 3, -1, -1],
    [0, 1, 2, 3, 4, -1],
    [0, 1, 2, 3, -1, -1],
];

/// For an attacking kind of piece, how many coloured pieces are numbered as its targets.
pub const PIECE_TARGET_COUNT: [i32; 6] = [6, 10, 8, 8, 10, 8];

/// The place of an attacked kind of piece among the targets of an attacking one, or -1.
pub open spec fn place(attacking: PieceType, attacked: PieceType) -> int {
    PIECE_INTERACTION_MAP[attacking.number()][attacked.number()] as int
}

/// How many coloured pieces are numbered as targets of an attacking kind of piece.
pub open spec fn target_count(kind: PieceType) -> int {
    PIECE_TARGET_COUNT[kind.number()] as int
}

/// The piece with the number `p`.
pub open spec fn numbered(p: int) -> Piece {
    Piece(p as u8)
}

/// The pieces in the order in which their threats are numbered: White's from pawn to king, then
/// Black's.
pub open spec fn nth_piece(k: int) -> Piece {
    Piece((2 * (k % 6) + k / 6) as u8)
}

/// The place of a piece in the order in which threats are numbered.
pub open spec fn piece_order(piece: Piece) -> int {
    6 * piece.side().number() + piece.kind().number()
}

/// The number of the first threat of the `n`th piece.
pub open spec fn first_threat(n: nat) -> int
    decreases n,
{
    if n == 0 {
        0
    } else {
        first_threat((n - 1) as nat) + target_count(nth_piece(n - 1).kind()) * reach::span(
            nth_piece(n - 1),
        )
    }
}

/// The number of the first threat of one piece against another one, had it no exceptions.
pub open spec fn pair_base(attacking: Piece, attacked: Piece) -> int {
    first_threat(piece_order(attacking) as nat) + (attacked.side().number() * (target_count(
        attacking.kind(),
    ) / 2) + place(attacking.kind(), attacked.kind())) * reach::span(attacking)
}

/// Whether threats of one piece against another one are not numbered at all.
pub open spec fn is_excluded(attacking: Piece, attacked: Piece) -> bool {
    place(attacking.kind(), attacked.kind()) < 0
}

/// Whether threats of one piece against another one are mutual, so that one of the two is enough.
pub open spec fn is_semi_excluded(attacking: Piece, attacked: Piece) -> bool {
    attacking.kind() == attacked.kind() && (attacking.side() != attacked.side()
        || !(attacking.kind() is Pawn))
}

/// Whether a threat is left out: its pair is not numbered, or the threat in the other direction
/// stands for both.
pub open spec fn is_dropped(attacking: Piece, from: int, attacked: Piece, to: int) -> bool {
    is_excluded(attacking, attacked) || (is_semi_excluded(attacking, attacked) && from < to)
}

/// The number of a threat; a large negative one if the threat is left out.
pub open spec fn threat_number(attacking: Piece, from: int, attacked: Piece, to: int) -> int {
    (if is_dropped(attacking, from, attacked, to) {
        -0x8000_0000int
    } else {
        0
    }) + pair_base(attacking, attacked) % 0x100_0000 + reach::offset_below(attacking, from as nat)
        + reach::reach_below(attacking, from, to as nat)
}

proof fn lemma_threat_count(k: nat, p: u8, targets: int, attacks: int)
    requires
        nth_piece(k as int) == Piece(p),
        target_count(Piece(p).kind()) == targets,
        reach::span(Piece(p)) == attacks,
    ensures
        first_threat(k + 1) == first_threat(k) + targets * attacks,
{
}

/// The numbers of the first threats of all the pieces.
pub proof fn lemma_first_threats()
    ensures
        first_threat(0) == 0,
        first_threat(1) == 504,
        first_threat(2) == 3864,
        first_threat(3) == 8344,
        first_threat(4) == 15512,
        first_threat(5) == 30072,
        first_threat(6) == 33432,
        first_threat(7) == 33936,
        first_threat(8) == 37296,
        first_threat(9) == 41776,
        first_threat(10) == 48944,
        first_threat(11) == 63504,
        first_threat(12) == 66864,
{
    reach::lemma_spans();
    assert(first_threat(0) == 0);
    lemma_threat_count(0, 0, 6, 84);
    lemma_threat_count(1, 2, 10, 336);
    lemma_threat_count(2, 4, 8, 560);
    lemma_threat_count(3, 6, 8, 896);
    lemma_threat_count(4, 8, 10, 1456);
    lemma_threat_count(5, 10, 8, 420);
    lemma_threat_count(6, 1, 6, 84);
    lemma_threat_count(7, 3, 10, 336);
    lemma_threat_count(8, 5, 8, 560);
    lemma_threat_count(9, 7, 8, 896);
    lemma_threat_count(10, 9, 10, 1456);
    lemma_threat_count(11, 11, 8, 420);
}

/// What is common to the threats of one piece against another one: the number of the first threat
/// in the low thirty bits, and two flags above them.
#[derive(Copy, Clone)]
pub struct PiecePair {
    inner: u32,
}

impl PiecePair {
    /// The two flags and the low bits, as one number.
    pub closed spec fn packed(self) -> int {
        self.inner as int
    }

    /// Packs the number of the first threat and the flags: none is numbered, or one direction is
    /// enough.
    pub fn new(excluded: bool, semi_excluded: bool, base: i32) -> (r: Self)
        ensures
            r.packed() == (if excluded {
                0x8000_0000int
            } else if semi_excluded {
                0x4000_0000int
            } else {
                0
            }) + base as int % 0x4000_0000,
    {
        let high: u32 = if excluded {
            1
        } else {
            0
        };
        let low: u32 = if semi_excluded && !excluded {
            1
        } else {
            0
        };
        let masked: i32 = base & 0x3FFFFFFF;
        let bits: u32 = masked as u32;
        let inner: u32 = (low << 30u32) | (high << 31u32) | bits;
        assert(inner == 0x4000_0000 * low + 0x8000_0000 * high + base % 0x4000_0000)
            by (bit_vector)
            requires
                high <= 1,
                low <= 1,
                high + low <= 1,
                masked == base & 0x3FFFFFFF,
                bits == masked as u32,
                inner == (low << 30u32) | (high << 31u32) | bits,
        ;
        PiecePair { inner }
    }

    /// The number of the first threat if the threat between the two squares is numbered, and a
    /// negative number otherwise.
    pub fn base(self, attacking: Square, attacked: Square) -> (r: isize)
        ensures
            r == (if (self.packed() / 0x4000_0000 + (if attacking.0 < attacked.0 {
                1int
            } else {
                0
            })) % 4 >= 2 {
                -0x8000_0000int
            } else {
                0
            }) + self.packed() % 0x100_0000,
    {
        let below: u32 = if attacking.0 < attacked.0 {
            1
        } else {
            0
        };
        let inner: u32 = self.inner;
        let sum: u32 = inner.wrapping_add(below << 30u32);
        let word: u32 = sum & 0x80FFFFFF;
        let r: i32 = word as i32;
        assert(below << 30u32 == 0x4000_0000 * below) by (bit_vector)
            requires
                below <= 1,
        ;
        assert(r == (if (inner / 0x4000_0000u32 + below) % 4 >= 2 {
            -0x8000_0000
        } else {
            0
        }) + inner % 0x100_0000u32) by (bit_vector)
            requires
                below <= 1,
                sum == inner + 0x4000_0000 * below || sum == inner + 0x4000_0000 * below
                    - 0x1_0000_0000,
                word == sum & 0x80FFFFFF,
                r == word as i32,
        ;
        r as isize
    }
}

/// Whether the first `n` of the numbers of attacks before each square are in the list, 64 for each
/// piece.
spec fn is_offset_row(offsets: Seq<i32>, p: int, n: int) -> bool {
    forall|sq: int|
        0 <= sq < n ==> #[trigger] offsets[64 * p + sq] == reach::offset_below(
            Piece(p as u8),
            sq as nat,
        )
}

/// Counts the attacks of a piece on an empty board and enters the running count of each
/// square in the list.
fn count_attacks(tables: &Tables, piece: Piece, offsets: &mut Vec<i32>) -> (count: i32)
    requires
        piece.wf(),
        old(offsets)@.len() == 768,
    ensures
        count == reach::span(piece),
        final(offsets)@.len() == 768,
        is_offset_row(final(offsets)@, piece.0 as int, 64),
        forall|i: int|
            0 <= i < 768 && i / 64 != piece.0 ==> #[trigger] final(offsets)@[i] == old(offsets)@[i],
{
    let pt: PieceType = piece.piece_type();
    let mut count: i32 = 0;
    let mut square: usize = 0;
    while square < 64
        invariant
            piece.wf(),
            pt == piece.kind(),
            square <= 64,
            count == reach::offset_below(piece, square as nat),
            offsets@.len() == 768,
            is_offset_row(offsets@, piece.0 as int, square as int),
            forall|i: int|
                0 <= i < 768 && i / 64 != piece.0 ==> #[trigger] offsets@[i] == old(offsets)@[i],
        decreases 64 - square,
    {
        proof {
            reach::lemma_offset_monotone(piece, square as nat, (square + 1) as nat);
        }
        let ghost before = offsets@;
        offsets[64 * piece.0 as usize + square] = count;
        assert(is_offset_row(offsets@, piece.0 as int, square + 1)) by {
            assert forall|sq: int| 0 <= sq < square + 1 implies #[trigger] offsets@[64 * piece.0
                + sq] == reach::offset_below(Piece(piece.0), sq as nat) by {
                if sq < square {
                    assert(offsets@[64 * piece.0 + sq] == before[64 * piece.0 + sq]);
                }
            }
        }
        if pt != PieceType::Pawn || (8 <= square && square < 56) {
            let atk: Bitboard = tables.attacks(piece, Square::new(square as u8), Bitboard(0));
            proof {
                assert forall|t: int| 0 <= t < 64 implies (#[trigger] bits::member(atk.0, t) <==> t
                    < 64 && geometry::reaches(piece.kind(), piece.side(), square as int, t)) by {
                    reach::lemma_empty_board(atk.0, piece, square as int, t);
                }
                reach::lemma_reach_count(atk.0, piece, square as int, 64, 64);
                reach::lemma_reach_monotone(piece, square as int, 64, 64);
            }
            count = count + atk.popcount() as i32;
        }
        square = square + 1;
    }
    count
}

/// The tables behind the numbering of threats.
pub struct ThreatLut {
    piece_pair: Vec<PiecePair>,
    piece_offset: Vec<i32>,
    attack_index: Vec<u8>,
}

/// What the packed entry of a pair of pieces holds.
spec fn packed_pair(attacking: Piece, attacked: Piece) -> int {
    (if is_excluded(attacking, attacked) {
        0x8000_0000int
    } else if is_semi_excluded(attacking, attacked) {
        0x4000_0000int
    } else {
        0
    }) + pair_base(attacking, attacked) % 0x4000_0000
}

spec fn is_pair_table(pairs: Seq<PiecePair>, n: int) -> bool {
    forall|a: int, d: int|
        0 <= a < 12 && 0 <= d < 12 && 12 * a + d < n ==> #[trigger] pairs[12 * a + d].packed()
            == packed_pair(Piece(a as u8), Piece(d as u8))
}

spec fn is_index_table(index: Seq<u8>, n: int) -> bool {
    forall|a: int, f: int, t: int|
        0 <= a < 12 && 0 <= f < 64 && 0 <= t < 64 && 4096 * a + 64 * f + t < n
            ==> #[trigger] index[4096 * a + 64 * f + t] == reach::reach_below(
            Piece(a as u8),
            f,
            t as nat,
        )
}

impl ThreatLut {
    /// The tables hold what the numbering of threats says.
    #[verifier::type_invariant]
    pub closed spec fn wf(self) -> bool {
        &&& self.piece_pair@.len() == 144
        &&& is_pair_table(self.piece_pair@, 144)
        &&& self.piece_offset@.len() == 768
        &&& forall|p: int| 0 <= p < 12 ==> #[trigger] is_offset_row(self.piece_offset@, p, 64)
        &&& self.attack_index@.len() == 49152
        &&& is_index_table(self.attack_index@, 49152)
    }
}

/// The order of the pieces and their numbers.
proof fn lemma_piece_order(p: u8)
    requires
        p < 12,
    ensures
        0 <= piece_order(Piece(p)) < 12,
        nth_piece(piece_order(Piece(p))) == Piece(p),
        piece_order(Piece(p)) == 6 * (p % 2) + p / 2,
{
}

/// The first threat and the number of attacks of each piece are small.
proof fn lemma_pair_bounds(attacking: Piece, attacked: Piece)
    requires
        attacking.wf(),
        attacked.wf(),
    ensures
        0 <= first_threat(piece_order(attacking) as nat) <= 63504,
        84 <= reach::span(attacking) <= 1456,
        -1 <= place(attacking.kind(), attacked.kind()) <= 4,
        6 <= target_count(attacking.kind()) <= 10,
{
    lemma_first_threats();
    reach::lemma_spans();
    lemma_piece_order(attacking.0);
    let (a, d) = (attacking.kind().number(), attacked.kind().number());
    lemma_interaction_map(a, d);
}

proof fn lemma_interaction_map(a: int, d: int)
    requires
        0 <= a < 6,
        0 <= d < 6,
    ensures
        -1 <= PIECE_INTERACTION_MAP[a][d] <= 4,
        6 <= PIECE_TARGET_COUNT[a] <= 10,
        PIECE_TARGET_COUNT[a] % 2 == 0,
        PIECE_INTERACTION_MAP[a][d] < PIECE_TARGET_COUNT[a] / 2,
{
    assert(a == 0 || a == 1 || a == 2 || a == 3 || a == 4 || a == 5);
    assert(d == 0 || d == 1 || d == 2 || d == 3 || d == 4 || d == 5);
}

/// Whether the attacks of the piece with number `p`, the `k`th in order, have been counted.
spec fn is_counted(
    offsets: Seq<i32>,
    spans: Seq<i32>,
    firsts: Seq<i32>,
    p: int,
    k: int,
) -> bool {
    &&& is_offset_row(offsets, p, 64)
    &&& spans[p] == reach::span(Piece(p as u8))
    &&& firsts[p] == first_threat(k as nat)
}

proof fn lemma_still_counted(
    offsets: Seq<i32>,
    spans: Seq<i32>,
    firsts: Seq<i32>,
    later: Seq<i32>,
    q: int,
    count: i32,
    first: i32,
    p: int,
    k: int,
)
    requires
        0 <= p < 12,
        0 <= q < 12,
        p != q,
        offsets.len() == 768,
        later.len() == 768,
        spans.len() == 12,
        firsts.len() == 12,
        forall|i: int| 0 <= i < 768 && i / 64 != q ==> #[trigger] later[i] == offsets[i],
        is_counted(offsets, spans, firsts, p, k),
    ensures
        is_counted(later, spans.update(q, count), firsts.update(q, first), p, k),
{
    assert forall|sq: int| 0 <= sq < 64 implies #[trigger] later[64 * p + sq]
        == reach::offset_below(Piece(p as u8), sq as nat) by {
        assert(later[64 * p + sq] == offsets[64 * p + sq]);
    }
}

/// Counts the attacks of the `k`th piece, whose first threat has the number `offset`, and returns
/// the number of the first threat of the next one.
fn count_piece(
    tables: &Tables,
    k: usize,
    offset: i32,
    piece_offset: &mut Vec<i32>,
    spans: &mut Vec<i32>,
    firsts: &mut Vec<i32>,
) -> (next: i32)
    requires
        k < 12,
        offset == first_threat(k as nat),
        old(piece_offset)@.len() == 768,
        old(spans)@.len() == 12,
        old(firsts)@.len() == 12,
    ensures
        next == first_threat((k + 1) as nat),
        final(piece_offset)@.len() == 768,
        final(spans)@.len() == 12,
        final(firsts)@.len() == 12,
        is_counted(
            final(piece_offset)@,
            final(spans)@,
            final(firsts)@,
            nth_piece(k as int).0 as int,
            k as int,
        ),
        forall|p: int, j: int|
            0 <= p < 12 && p != nth_piece(k as int).0 && #[trigger] is_counted(
                old(piece_offset)@,
                old(spans)@,
                old(firsts)@,
                p,
                j,
            ) ==> is_counted(final(piece_offset)@, final(spans)@, final(firsts)@, p, j),
{
    let color: Color = if k < 6 {
        Color::White
    } else {
        Color::Black
    };
    let pt: PieceType = PieceType::new(k % 6);
    let piece: Piece = Piece::new(color, pt);
    assert(piece == nth_piece(k as int));
    let count: i32 = count_attacks(tables, piece, piece_offset);
    proof {
        lemma_first_threats();
        lemma_pair_bounds(piece, piece);
        lemma_threat_count(
            k as nat,
            piece.0,
            target_count(piece.kind()),
            reach::span(piece) as int,
        );
        assert(0 <= target_count(piece.kind()) * count <= 14560) by (nonlinear_arith)
            requires
                6 <= target_count(piece.kind()) <= 10,
                0 <= count <= 1456,
        ;
    }
    spans[piece.0 as usize] = count;
    firsts[piece.0 as usize] = offset;
    proof {
        assert forall|p: int, j: int|
            0 <= p < 12 && p != piece.0 && #[trigger] is_counted(
                old(piece_offset)@,
                old(spans)@,
                old(firsts)@,
                p,
                j,
            ) implies is_counted(piece_offset@, spans@, firsts@, p, j) by {
            lemma_still_counted(
                old(piece_offset)@,
                old(spans)@,
                old(firsts)@,
                piece_offset@,
                piece.0 as int,
                count,
                offset,
                p,
                j,
            );
        }
    }
    let targets: i32 = PIECE_TARGET_COUNT[pt.index()];
    offset + targets * count
}

/// Computes the numbering of threats.
pub fn threat_lut(tables: &Tables) -> (r: ThreatLut)
    ensures
        r.wf(),
{
    let mut piece_offset: Vec<i32> = vec![0i32; 768];
    let mut spans: Vec<i32> = vec![0i32; 12];
    let mut firsts: Vec<i32> = vec![0i32; 12];
    let mut offset: i32 = 0;
    let mut k: usize = 0;
    while k < 12
        invariant
            k <= 12,
            offset == first_threat(k as nat),
            piece_offset@.len() == 768,
            spans@.len() == 12,
            firsts@.len() == 12,
            forall|p: int|
                0 <= p < 12 && piece_order(#[trigger] numbered(p)) < k ==> is_counted(
                    piece_offset@,
                    spans@,
                    firsts@,
                    p,
                    piece_order(numbered(p)),
                ),
        decreases 12 - k,
    {
        offset = count_piece(tables, k, offset, &mut piece_offset, &mut spans, &mut firsts);
        proof {
            assert forall|p: int|
                0 <= p < 12 && piece_order(#[trigger] numbered(p)) < k + 1 implies is_counted(
                piece_offset@,
                spans@,
                firsts@,
                p,
                piece_order(numbered(p)),
            ) by {
                lemma_piece_order(p as u8);
            }
        }
        k = k + 1;
    }
    proof {
        assert forall|p: int| 0 <= p < 12 implies is_counted(
            piece_offset@,
            spans@,
            firsts@,
            p,
            piece_order(#[trigger] numbered(p)),
        ) by {
            lemma_piece_order(p as u8);
        }
    }
    let piece_pair: Vec<PiecePair> = pair_table(&spans, &firsts);
    let attack_index: Vec<u8> = index_table(tables);
    assert forall|p: int| 0 <= p < 12 implies #[trigger] is_offset_row(piece_offset@, p, 64) by {
        assert(numbered(p).wf());
    }
    ThreatLut { piece_pair, piece_offset, attack_index }
}

/// Packs the entries of all the pairs of pieces.
fn pair_table(spans: &Vec<i32>, firsts: &Vec<i32>) -> (pairs: Vec<PiecePair>)
    requires
        spans@.len() == 12,
        firsts@.len() == 12,
        forall|p: int|
            0 <= p < 12 ==> {
                &&& spans@[p] == reach::span(#[trigger] numbered(p))
                &&& firsts@[p] == first_threat(piece_order(numbered(p)) as nat)
            },
    ensures
        pairs@.len() == 144,
        is_pair_table(pairs@, 144),
{
    let mut pairs: Vec<PiecePair> = Vec::new();
    let mut i: usize = 0;
    while i < 144
        invariant
            i <= 144,
            spans@.len() == 12,
            firsts@.len() == 12,
            forall|p: int|
                0 <= p < 12 ==> {
                    &&& spans@[p] == reach::span(#[trigger] numbered(p))
                    &&& firsts@[p] == first_threat(piece_order(numbered(p)) as nat)
                },
            pairs@.len() == i,
            is_pair_table(pairs@, i as int),
        decreases 144 - i,
    {
        let attacking: Piece = Piece::from_index(i / 12);
        let attacked: Piece = Piece::from_index(i % 12);
        let ap: PieceType = attacking.piece_type();
        let ac: Color = attacking.color();
        let dp: PieceType = attacked.piece_type();
        let dc: Color = attacked.color();

        let map: i32 = PIECE_INTERACTION_MAP[ap.index()][dp.index()];
        let half: i32 = PIECE_TARGET_COUNT[ap.index()] / 2;
        let side: i32 = if dc == Color::White {
            0
        } else {
            half
        };
        let count: i32 = spans[i / 12];
        proof {
            assert(attacking == numbered((i / 12) as int));
            lemma_pair_bounds(attacking, attacked);
            assert(-1456 <= (side + map) * count <= 13104) by (nonlinear_arith)
                requires
                    -1 <= side + map <= 9,
                    84 <= count <= 1456,
            ;
        }
        let base: i32 = firsts[i / 12] + (side + map) * count;
        assert(base == pair_base(attacking, attacked));

        let enemy: bool = ac != dc;
        let semi_excluded: bool = ap == dp && (enemy || ap != PieceType::Pawn);
        let excluded: bool = map < 0;
        let ghost before = pairs@;
        pairs.push(PiecePair::new(excluded, semi_excluded, base));
        proof {
            assert forall|a: int, d: int|
                0 <= a < 12 && 0 <= d < 12 && 12 * a + d < i + 1 implies #[trigger] pairs@[12 * a
                + d].packed() == packed_pair(Piece(a as u8), Piece(d as u8)) by {
                if 12 * a + d < i {
                    assert(pairs@[12 * a + d] == before[12 * a + d]);
                } else {
                    assert(a == i / 12 && d == i % 12);
                }
            }
        }
        i = i + 1;
    }
    pairs
}

/// For every piece, origin and target, counts the attacked squares before the target.
fn index_table(tables: &Tables) -> (index: Vec<u8>)
    ensures
        index@.len() == 49152,
        is_index_table(index@, 49152),
{
    let mut index: Vec<u8> = Vec::new();
    let mut i: usize = 0;
    while i < 768
        invariant
            i <= 768,
            index@.len() == 64 * i,
            is_index_table(index@, 64 * i),
        decreases 768 - i,
    {
        let piece: Piece = Piece::from_index(i / 64);
        let from: usize = i % 64;
        let atk: Bitboard = tables.attacks(piece, Square::new(from as u8), Bitboard(0));
        proof {
            assert forall|t: int| 0 <= t < 64 implies (#[trigger] bits::member(atk.0, t)
                <==> geometry::reaches(piece.kind(), piece.side(), from as int, t)) by {
                reach::lemma_empty_board(atk.0, piece, from as int, t);
            }
        }
        let mut to: usize = 0;
        while to < 64
            invariant
                to <= 64,
                i < 768,
                piece.0 == i / 64,
                from == i % 64,
                forall|t: int|
                    0 <= t < 64 ==> (#[trigger] bits::member(atk.0, t) <==> geometry::reaches(
                        piece.kind(),
                        piece.side(),
                        from as int,
                        t,
                    )),
                index@.len() == 64 * i + to,
                is_index_table(index@, 64 * i + to),
            decreases 64 - to,
        {
            let mask: u64 = if to == 0 {
                0u64
            } else {
                proof {
                    bits::lemma_has_single(to as u64, 0);
                }
                (1u64 << (to as u64)) - 1
            };
            let below: Bitboard = Bitboard(mask) & atk;
            proof {
                assert forall|t: int| 0 <= t < 64 implies (#[trigger] bits::member(below.0, t) <==> t
                    < to && geometry::reaches(piece.kind(), piece.side(), from as int, t)) by {
                    bits::lemma_has_ops(mask, atk.0, t);
                    if to > 0 {
                        bits::lemma_has_single(to as u64, t);
                    }
                }
                reach::lemma_reach_count(below.0, piece, from as int, to as nat, 64);
                reach::lemma_reach_monotone(piece, from as int, to as nat, to as nat);
            }
            let ghost before = index@;
            index.push(below.popcount() as u8);
            proof {
                assert forall|a: int, f: int, t: int|
                    0 <= a < 12 && 0 <= f < 64 && 0 <= t < 64 && 4096 * a + 64 * f + t < 64 * i + to
                        + 1 implies #[trigger] index@[4096 * a + 64 * f + t] == reach::reach_below(
                    Piece(a as u8),
                    f,
                    t as nat,
                ) by {
                    if 4096 * a + 64 * f + t < 64 * i + to {
                        assert(index@[4096 * a + 64 * f + t] == before[4096 * a + 64 * f + t]);
                    } else {
                        assert(64 * a + f == i && t == to);
                        assert(a == i / 64 && f == i % 64);
                    }
                }
            }
            to = to + 1;
        }
        i = i + 1;
    }
    index
}

/// Square `s` as the player of colour `pov` sees it; the files are reversed if `mirrored` is set.
pub open spec fn oriented_square(s: int, pov: Color, mirrored: bool) -> int {
    if mirrored {
        types::flip_files(types::relative_square(s, pov))
    } else {
        types::relative_square(s, pov)
    }
}

/// A piece as the player of colour `pov` sees it: the player's own pieces are white.
pub open spec fn oriented_piece(piece: Piece, pov: Color) -> Piece {
    match pov {
        Color::White => piece,
        Color::Black => Piece::of(piece.side().opposite(), piece.kind()),
    }
}

/// The number of a threat as the player of colour `pov` sees it.
pub open spec fn threat_number_for(
    piece: Piece,
    from: int,
    attacked: Piece,
    to: int,
    mirrored: bool,
    pov: Color,
) -> int {
    threat_number(
        oriented_piece(piece, pov),
        oriented_square(from, pov, mirrored),
        oriented_piece(attacked, pov),
        oriented_square(to, pov, mirrored),
    )
}

/// The file and the rank of a square as a player sees them.
pub proof fn lemma_oriented_square(s: int, pov: Color, mirrored: bool)
    requires
        0 <= s < 64,
    ensures
        0 <= oriented_square(s, pov, mirrored) < 64,
        types::file_of(oriented_square(s, pov, mirrored)) == if mirrored {
            7 - types::file_of(s)
        } else {
            types::file_of(s)
        },
        types::rank_of(oriented_square(s, pov, mirrored)) == if pov is Black {
            7 - types::rank_of(s)
        } else {
            types::rank_of(s)
        },
{
}

/// The kind and the colour of a piece as a player sees them.
pub proof fn lemma_oriented_piece(piece: Piece, pov: Color)
    requires
        piece.wf(),
    ensures
        oriented_piece(piece, pov).wf(),
        pov is White ==> oriented_piece(piece, pov).0 == piece.0,
        pov is Black ==> oriented_piece(piece, pov).0 == piece.0 ^ 1,
        oriented_piece(piece, pov).kind() == piece.kind(),
        oriented_piece(piece, pov).side() == if pov is White {
            piece.side()
        } else {
            piece.side().opposite()
        },
{
    types::lemma_byte_table(piece.0, 0);
}

/// Unpacking the entry of a pair of pieces.
proof fn lemma_unpack(attacking: Piece, from: int, attacked: Piece, to: int, packed: int, below: int)
    requires
        packed == packed_pair(attacking, attacked),
        below == (if from < to {
            1int
        } else {
            0
        }),
    ensures
        (packed / 0x4000_0000 + below) % 4 >= 2 <==> is_dropped(attacking, from, attacked, to),
        packed % 0x100_0000 == pair_base(attacking, attacked) % 0x100_0000,
{
}

/// A square as the player of colour `pov` sees it.
fn orient_square(sq: Square, pov: Color, mirrored: bool) -> (r: Square)
    requires
        sq.wf(),
    ensures
        r.wf(),
        r.0 == oriented_square(sq.0 as int, pov, mirrored),
{
    let flip: u8 = if mirrored {
        7
    } else {
        0
    };
    let relative: Square = sq.relative_to(pov);
    proof {
        types::lemma_byte_table(sq.0, 0);
        types::lemma_byte_table(relative.0, 0);
    }
    Square(relative.0 ^ flip)
}

/// A piece as the player of colour `pov` sees it.
fn orient_piece(piece: Piece, pov: Color) -> (r: Piece)
    requires
        piece.wf(),
    ensures
        r == oriented_piece(piece, pov),
        r.wf(),
{
    proof {
        lemma_oriented_piece(piece, pov);
        types::lemma_byte_table(piece.0, 0);
    }
    let swap: u8 = pov.index() as u8;
    Piece(piece.0 ^ swap)
}

impl ThreatLut {
    /// The number of the threat of `piece` on `from` against `attacked` on `to`, as the player of
    /// colour `pov` sees it; negative if the threat is left out.
    #[verifier::rlimit(40)]
    pub fn threat_index(
        &self,
        piece: Piece,
        from: Square,
        attacked: Piece,
        to: Square,
        mirrored: bool,
        pov: Color,
    ) -> (r: isize)
        requires
            piece.wf(),
            from.wf(),
            attacked.wf(),
            to.wf(),
        ensures
            r == threat_number_for(
                piece,
                from.0 as int,
                attacked,
                to.0 as int,
                mirrored,
                pov,
            ),
    {
        let ghost (own, other) = (piece, attacked);
        let from: Square = orient_square(from, pov, mirrored);
        let to: Square = orient_square(to, pov, mirrored);
        let attacking: usize = orient_piece(piece, pov).0 as usize;
        let attacked: usize = orient_piece(attacked, pov).0 as usize;
        proof {
            use_type_invariant(self);
            lemma_oriented_piece(own, pov);
            lemma_oriented_piece(other, pov);
        }
        let ghost (a, d) = (oriented_piece(own, pov), oriented_piece(other, pov));
        let ghost (f, t) = (from.0 as int, to.0 as int);
        let pair: PiecePair = self.piece_pair[12 * attacking + attacked];
        proof {
            assert(pair.packed() == packed_pair(a, d));
            lemma_unpack(a, f, d, t, pair.packed(), if f < t {
                1
            } else {
                0
            });
            reach::lemma_offset_monotone(a, f as nat, f as nat);
            assert(is_offset_row(self.piece_offset@, attacking as int, 64));
            assert(self.piece_offset@[64 * attacking + f] == reach::offset_below(a, f as nat));
            assert(self.attack_index@[4096 * attacking + 64 * f + t] == reach::reach_below(
                a,
                f,
                t as nat,
            ));
        }
        pair.base(from, to) + self.piece_offset[64 * attacking + from.0 as usize] as isize
            + self.attack_index[4096 * attacking + 64 * from.0 as usize + to.0 as usize] as isize
    }
}

/// How many numbers there are for threats.
pub const NUM_THREATS: usize = 66864;

/// What is left out has a negative number, and every other attack has a number below
/// `NUM_THREATS`.
pub proof fn lemma_threat_range(attacking: Piece, from: int, attacked: Piece, to: int)
    requires
        attacking.wf(),
        attacked.wf(),
        0 <= from < 64,
        0 <= to < 64,
        geometry::reaches(attacking.kind(), attacking.side(), from, to),
    ensures
        is_dropped(attacking, from, attacked, to) <==> threat_number(attacking, from, attacked, to)
            < 0,
        threat_number(attacking, from, attacked, to) < NUM_THREATS,
        !is_dropped(attacking, from, attacked, to) ==> threat_number(attacking, from, attacked, to)
            == pair_base(attacking, attacked) + reach::offset_below(attacking, from as nat)
            + reach::reach_below(attacking, from, to as nat),
{
    lemma_pair_bounds(attacking, attacked);
    reach::lemma_offset_monotone(attacking, from as nat, 64);
    reach::lemma_reach_monotone(attacking, from, to as nat, 64);
    if !is_dropped(attacking, from, attacked, to) {
        lemma_pair_base(attacking, attacked);
        reach::lemma_reach_strict(attacking, from, to as nat, 64);
        if reach::is_origin(attacking, from) {
            reach::lemma_offset_block(attacking, from as nat, 64);
        } else {
            assert(piece_order(attacking) == 0 || piece_order(attacking) == 6);
        }
    }
}

/// The numbers of the threats of one piece against another one lie among those of the piece.
proof fn lemma_pair_base(attacking: Piece, attacked: Piece)
    requires
        attacking.wf(),
        attacked.wf(),
        !is_excluded(attacking, attacked),
    ensures
        pair_base(attacking, attacked) == first_threat(piece_order(attacking) as nat) + target_slot(
            attacking,
            attacked,
        ) * reach::span(attacking),
        first_threat(piece_order(attacking) as nat) <= pair_base(attacking, attacked),
        pair_base(attacking, attacked) + reach::span(attacking) <= first_threat(
            (piece_order(attacking) + 1) as nat,
        ),
        0 <= pair_base(attacking, attacked),
        pair_base(attacking, attacked) + reach::span(attacking) <= NUM_THREATS,
        piece_order(attacking) == 0 || piece_order(attacking) == 6 ==> pair_base(
            attacking,
            attacked,
        ) + reach::span(attacking) <= NUM_THREATS - 64,
{
    let n = reach::span(attacking) as int;
    let slot = target_slot(attacking, attacked);
    let targets = target_count(attacking.kind());
    lemma_target_slot(attacking, attacked);
    lemma_piece_order(attacking.0);
    lemma_first_threats();
    lemma_threat_count(piece_order(attacking) as nat, attacking.0, targets, n);
    assert(0 <= slot * n && slot * n + n <= targets * n) by (nonlinear_arith)
        requires
            0 <= slot < targets,
            n >= 0,
    ;
}

/// The place of an attacked piece among the targets of a piece.
pub open spec fn target_slot(attacking: Piece, attacked: Piece) -> int {
    attacked.side().number() * (target_count(attacking.kind()) / 2) + place(
        attacking.kind(),
        attacked.kind(),
    )
}

proof fn lemma_target_slot(attacking: Piece, attacked: Piece)
    requires
        attacking.wf(),
        attacked.wf(),
        !is_excluded(attacking, attacked),
    ensures
        0 <= target_slot(attacking, attacked) < target_count(attacking.kind()),
{
    lemma_interaction_map(attacking.kind().number(), attacked.kind().number());
}

/// Later pieces have higher numbers.
proof fn lemma_first_threat_monotone(m: nat, n: nat)
    requires
        m <= n <= 12,
    ensures
        first_threat(m) <= first_threat(n),
    decreases n,
{
    lemma_first_threats();
    if m < n {
        lemma_first_threat_monotone(m, (n - 1) as nat);
    }
}

/// Whether a threat is numbered: it is an attack from a square where the piece can stand, and it is
/// not left out.
pub open spec fn is_numbered(attacking: Piece, from: int, attacked: Piece, to: int) -> bool {
    &&& attacking.wf()
    &&& attacked.wf()
    &&& 0 <= from < 64
    &&& 0 <= to < 64
    &&& reach::is_origin(attacking, from)
    &&& geometry::reaches(attacking.kind(), attacking.side(), from, to)
    &&& !is_dropped(attacking, from, attacked, to)
}

/// The numbers of a piece's threats lie between the first of its own and the first of the next
/// piece; its targets divide them into equal parts.
proof fn lemma_threat_place(attacking: Piece, from: int, attacked: Piece, to: int)
    requires
        is_numbered(attacking, from, attacked, to),
    ensures
        ({
            let n = reach::span(attacking) as int;
            let x = reach::offset_below(attacking, from as nat) + reach::reach_below(
                attacking,
                from,
                to as nat,
            );
            let k = piece_order(attacking) as nat;
            let slot = target_slot(attacking, attacked);
            &&& 0 <= x < n
            &&& 0 <= slot
            &&& threat_number(attacking, from, attacked, to) == first_threat(k) + slot * n + x
            &&& first_threat(k) <= threat_number(attacking, from, attacked, to)
            &&& threat_number(attacking, from, attacked, to) < first_threat(k + 1)
        }),
{
    lemma_threat_range(attacking, from, attacked, to);
    lemma_target_slot(attacking, attacked);
    lemma_pair_base(attacking, attacked);
    reach::lemma_reach_strict(attacking, from, to as nat, 64);
    reach::lemma_offset_block(attacking, from as nat, 64);
}

proof fn lemma_same_target(attacking: Piece, d: Piece, e: Piece)
    requires
        attacking.wf(),
        d.wf(),
        e.wf(),
        !is_excluded(attacking, d),
        !is_excluded(attacking, e),
        target_slot(attacking, d) == target_slot(attacking, e),
    ensures
        d == e,
{
    lemma_interaction_map(attacking.kind().number(), d.kind().number());
    lemma_interaction_map(attacking.kind().number(), e.kind().number());
    let half = target_count(attacking.kind()) / 2;
    let (p, q) = (place(attacking.kind(), d.kind()), place(attacking.kind(), e.kind()));
    assert(p == q && d.side() == e.side());
    lemma_same_place(
        attacking.kind().number(),
        d.kind().number(),
        e.kind().number(),
    );
    assert(d.0 == 2 * d.kind().number() + d.side().number());
    assert(e.0 == 2 * e.kind().number() + e.side().number());
}

proof fn lemma_same_place(a: int, d: int, e: int)
    requires
        0 <= a < 6,
        0 <= d < 6,
        0 <= e < 6,
        PIECE_INTERACTION_MAP[a][d] >= 0,
        PIECE_INTERACTION_MAP[a][d] == PIECE_INTERACTION_MAP[a][e],
    ensures
        d == e,
{
    assert(a == 0 || a == 1 || a == 2 || a == 3 || a == 4 || a == 5);
    assert(d == 0 || d == 1 || d == 2 || d == 3 || d == 4 || d == 5);
    assert(e == 0 || e == 1 || e == 2 || e == 3 || e == 4 || e == 5);
}

/// No two threats that are numbered share a number: it tells the attacking piece, its square, the
/// attacked piece and its square.
pub proof fn lemma_threat_numbers_distinct(
    a: Piece,
    from: int,
    d: Piece,
    to: int,
    b: Piece,
    from_b: int,
    e: Piece,
    to_b: int,
)
    requires
        is_numbered(a, from, d, to),
        is_numbered(b, from_b, e, to_b),
        threat_number(a, from, d, to) == threat_number(b, from_b, e, to_b),
    ensures
        a == b,
        from == from_b,
        d == e,
        to == to_b,
{
    lemma_threat_place(a, from, d, to);
    lemma_threat_place(b, from_b, e, to_b);
    lemma_piece_order(a.0);
    lemma_piece_order(b.0);
    let (k, m) = (piece_order(a) as nat, piece_order(b) as nat);
    if k < m {
        lemma_first_threat_monotone(k + 1, m);
    } else if m < k {
        lemma_first_threat_monotone(m + 1, k);
    }
    assert(nth_piece(k as int) == a && nth_piece(m as int) == b);
    let n = reach::span(a) as int;
    let x = reach::offset_below(a, from as nat) + reach::reach_below(a, from, to as nat);
    let y = reach::offset_below(b, from_b as nat) + reach::reach_below(b, from_b, to_b as nat);
    let (s, u) = (target_slot(a, d), target_slot(b, e));
    assert(s == u && x == y) by (nonlinear_arith)
        requires
            s * n + x == u * n + y,
            0 <= x < n,
            0 <= y < n,
    ;
    lemma_same_target(a, d, e);
    reach::lemma_reach_strict(a, from, to as nat, 64);
    reach::lemma_reach_strict(a, from_b, to_b as nat, 64);
    if from < from_b {
        reach::lemma_offset_block(a, from as nat, from_b as nat);
    } else if from_b < from {
        reach::lemma_offset_block(a, from_b as nat, from as nat);
    } else if to < to_b {
        reach::lemma_reach_strict(a, from, to as nat, to_b as nat);
    } else if to_b < to {
        reach::lemma_reach_strict(a, from, to_b as nat, to as nat);
    }
}

} // verus!
