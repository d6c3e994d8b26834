//! Positions with the pieces in their own colours, the board seen from White's side.
use bulletformat::ChessBoard;
use vstd::prelude::*;
use vstd::std_specs::bits::*;

use crate::bits;
use crate::packed;
use crate::types;
use crate::types::{Color, Piece, PieceType, Square};

verus! {

/// The last of the first `n` sets that holds square `s`, or -1 if none does.
pub open spec fn last_set(sets: Seq<u64>, s: int, n: int) -> int
    decreases n,
{
    if n <= 0 {
        -1
    } else if bits::member(sets[n - 1], s) {
        n - 1
    } else {
        last_set(sets, s, n - 1)
    }
}

/// The highest square below `n` of a set, or 0 if there is none.
pub open spec fn highest_below(bb: u64, n: nat) -> int
    decreases n,
{
    if n == 0 {
        0
    } else if bits::member(bb, n - 1) {
        n - 1
    } else {
        highest_below(bb, (n - 1) as nat)
    }
}

/// The highest square of a set, or 0 if the set is empty.
pub open spec fn highest(bb: u64) -> int {
    highest_below(bb, 64)
}

/// The highest square of a set is the one behind which there is no other.
pub proof fn lemma_highest(bb: u64, k: int, n: nat)
    requires
        n <= 64,
        0 <= k < n,
        bits::member(bb, k),
        forall|s: int| k < s < n ==> !bits::member(bb, s),
    ensures
        highest_below(bb, n) == k,
    decreases n,
{
    if k < n - 1 {
        lemma_highest(bb, k, (n - 1) as nat);
    }
}

proof fn lemma_highest_empty(n: nat)
    ensures
        highest_below(0, n) == 0,
    decreases n,
{
    if n > 0 {
        lemma_highest_empty((n - 1) as nat);
        if n <= 64 {
            bits::lemma_has_ops(0, 0, n - 1);
        }
    }
}

/// The squares that one of the first `n` sets holds.
pub open spec fn union_below(sets: Seq<u64>, n: nat) -> u64
    decreases n,
{
    if n == 0 {
        0
    } else {
        union_below(sets, (n - 1) as nat) | sets[n - 1]
    }
}

/// The piece on square `s`; the white pawn, piece 0, on an empty square.
pub open spec fn piece_of_sets(sets: Seq<u64>, s: int) -> Piece {
    if last_set(sets, s, 12) >= 0 {
        Piece(last_set(sets, s, 12) as u8)
    } else {
        Piece(0)
    }
}

/// What a board stands for: the occupied squares, the piece on each square, and where the kings
/// are.
pub struct Position {
    pub occ: u64,
    pub pieces: Seq<Piece>,
    pub white_king: int,
    pub black_king: int,
}

impl Position {
    /// All sixty-four squares have an entry, and the entries are pieces and squares.
    pub open spec fn wf(self) -> bool {
        &&& self.pieces.len() == 64
        &&& forall|s: int| 0 <= s < 64 ==> (#[trigger] self.pieces[s]).wf()
        &&& 0 <= self.white_king < 64
        &&& 0 <= self.black_king < 64
    }

    /// The square of the king of colour `c`.
    pub open spec fn king_of(self, c: Color) -> int {
        match c {
            Color::White => self.white_king,
            Color::Black => self.black_king,
        }
    }

    /// The position in which the `p`th set holds the squares of the piece with number `p`. Where
    /// several sets hold a square, the last one counts; a colour with several kings has its king on
    /// the highest of their squares, one without a king on square 0.
    pub open spec fn of_sets(sets: Seq<u64>) -> Position {
        Position {
            occ: union_below(sets, 12),
            pieces: Seq::new(64, |s: int| piece_of_sets(sets, s)),
            white_king: highest(sets[10]),
            black_king: highest(sets[11]),
        }
    }
}

/// A position: the occupied squares, the piece on each of them, and where the kings are.
pub struct AresBoard {
    occ: u64,
    piece_on: Vec<Piece>,
    white_king: Square,
    black_king: Square,
}

impl View for AresBoard {
    type V = Position;

    closed spec fn view(&self) -> Position {
        Position {
            occ: self.occ,
            pieces: self.piece_on@,
            white_king: self.white_king.0 as int,
            black_king: self.black_king.0 as int,
        }
    }
}

impl Clone for AresBoard {
    fn clone(&self) -> (r: Self)
        ensures
            r@ == self@,
    {
        proof {
            use_type_invariant(self);
        }
        let mut piece_on: Vec<Piece> = Vec::new();
        let mut s: usize = 0;
        while s < 64
            invariant
                s <= 64,
                self.piece_on@.len() == 64,
                piece_on@ == self.piece_on@.take(s as int),
            decreases 64 - s,
        {
            piece_on.push(self.piece_on[s]);
            assert(piece_on@ =~= self.piece_on@.take(s + 1));
            s = s + 1;
        }
        assert(piece_on@ =~= self.piece_on@);
        AresBoard {
            occ: self.occ,
            piece_on,
            white_king: self.white_king,
            black_king: self.black_king,
        }
    }
}

impl AresBoard {
    /// The board stands for a position.
    #[verifier::type_invariant]
    pub open spec fn wf(self) -> bool {
        self@.wf()
    }

    /// The square of the king of the given colour.
    pub fn king_square(&self, pov: Color) -> (r: Square)
        ensures
            r.wf(),
            r.0 == self@.king_of(pov),
    {
        proof {
            use_type_invariant(self);
        }
        match pov {
            Color::White => self.white_king,
            Color::Black => self.black_king,
        }
    }

    /// The piece on a square.
    pub fn piece(&self, sq: Square) -> (r: Piece)
        requires
            sq.wf(),
        ensures
            r == self@.pieces[sq.0 as int],
            r.wf(),
    {
        proof {
            use_type_invariant(self);
        }
        self.piece_on[sq.0 as usize]
    }

    /// The occupied squares.
    pub fn occ(&self) -> (r: u64)
        ensures
            r == self@.occ,
    {
        self.occ
    }

    /// The position with the given squares of each piece, in the order of the pieces' numbers.
    pub fn from_absolute(pieces12: [u64; 12]) -> (r: Self)
        ensures
            r@ == Position::of_sets(pieces12@),
            r@.wf(),
    {
        let mut occ: u64 = 0;
        let mut piece_on: Vec<Piece> = vec![Piece(0); 64];
        let mut white_king: Square = Square(0);
        let mut black_king: Square = Square(0);
        let ghost sets = pieces12@;
        let mut pi: usize = 0;
        while pi < 12
            invariant
                pi <= 12,
                sets == pieces12@,
                piece_on@.len() == 64,
                occ == union_below(sets, pi as nat),
                forall|s: int|
                    0 <= s < 64 ==> (#[trigger] piece_on@[s]).0 == if last_set(sets, s, pi as int)
                        >= 0 {
                        last_set(sets, s, pi as int)
                    } else {
                        0
                    },
                white_king.0 == if pi > 10 {
                    highest(sets[10])
                } else {
                    0
                },
                black_king.0 == if pi > 11 {
                    highest(sets[11])
                } else {
                    0
                },
                white_king.wf(),
                black_king.wf(),
            decreases 12 - pi,
        {
            let all: u64 = pieces12[pi];
            let ghost on_before = piece_on@;
            occ = occ | all;
            let piece: Piece = Piece::from_index(pi);
            let is_king: bool = piece.piece_type() == PieceType::King;
            let mut top: u8 = 0;
            let mut bb: u64 = all;
            while bb != 0
                invariant
                    piece_on@.len() == 64,
                    piece.0 == pi,
                    pi < 12,
                    on_before.len() == 64,
                    top < 64,
                    forall|s: int| #[trigger] bits::member(bb, s) ==> bits::member(all, s),
                    forall|s: int, u: int|
                        #![trigger bits::member(all, s), bits::member(bb, u)]
                        bits::member(all, s) && !bits::member(bb, s) && bits::member(bb, u) ==> s < u,
                    forall|s: int|
                        0 <= s < 64 ==> #[trigger] piece_on@[s] == if bits::member(all, s)
                            && !bits::member(bb, s) {
                            piece
                        } else {
                            on_before[s]
                        },
                    bb == all ==> top == 0,
                    bb != all ==> bits::member(all, top as int) && !bits::member(bb, top as int),
                    forall|s: int| #[trigger]
                        bits::member(all, s) && !bits::member(bb, s) ==> s <= top,
                decreases bb,
            {
                let sq: u8 = bb.trailing_zeros() as u8;
                let ghost bb_before = bb;
                proof {
                    bits::lemma_lowest(bb);
                    assert((bb & ((bb - 1) as u64)) < bb) by (bit_vector)
                        requires
                            bb != 0,
                    ;
                }
                bb = bb & (bb - 1);
                piece_on[sq as usize] = piece;
                top = sq;
                proof {
                    assert(bits::member(bb_before, sq as int));
                    assert(!bits::member(bb, sq as int));
                }
            }
            proof {
                assert forall|s: int| !#[trigger] bits::member(0, s) by {
                    if 0 <= s < 64 {
                        bits::lemma_has_ops(0, 0, s);
                    }
                }
                if all == 0 {
                    lemma_highest_empty(64);
                } else {
                    lemma_highest(all, top as int, 64);
                }
                assert(top == highest(all));
            }
            if is_king {
                match piece.color() {
                    Color::White => {
                        white_king = Square(top);
                    },
                    Color::Black => {
                        black_king = Square(top);
                    },
                }
            }
            pi = pi + 1;
        }
        proof {
            assert forall|s: int| 0 <= s < 64 implies (#[trigger] piece_on@[s]).wf() by {
                lemma_last_set(sets, s, 12);
            }
        }
        let r: AresBoard = AresBoard { occ, piece_on, white_king, black_king };
        assert(r@.pieces =~= Position::of_sets(sets).pieces);
        r
    }
}

/// The last set is one of the sets.
pub proof fn lemma_last_set(sets: Seq<u64>, s: int, n: int)
    requires
        0 <= n,
    ensures
        -1 <= last_set(sets, s, n) < n,
        last_set(sets, s, n) >= 0 ==> bits::member(sets[last_set(sets, s, n)], s),
        forall|p: int|
            0 <= p < n && #[trigger] bits::member(sets[p], s) ==> last_set(sets, s, n) >= p,
    decreases n,
{
    if n > 0 {
        lemma_last_set(sets, s, n - 1);
    }
}

/// The number of the piece that a code stands for, the side to move being Black or not: the low
/// three bits are the kind, the fourth is set for the pieces of the side that is not to move.
pub open spec fn code_piece(code: u8, stm_is_black: bool) -> int {
    2 * (code % 8) + (if ((code / 8) % 2 == 1) != stm_is_black {
        1int
    } else {
        0
    })
}

/// The square that the side to move numbers `sq`.
pub open spec fn code_square(sq: u8, stm_is_black: bool) -> int {
    if stm_is_black {
        types::flip_ranks(sq as int)
    } else {
        sq as int
    }
}

/// The squares of each piece, of a list of codes and squares.
pub open spec fn piece_sets(pieces: Seq<(u8, u8)>, stm_is_black: bool) -> Seq<u64>
    decreases pieces.len(),
{
    if pieces.len() == 0 {
        Seq::new(12, |p: int| 0u64)
    } else {
        let rest = piece_sets(pieces.drop_last(), stm_is_black);
        let p = code_piece(pieces.last().0, stm_is_black);
        rest.update(p, rest[p] | (1u64 << (code_square(pieces.last().1, stm_is_black) as u64)))
    }
}

/// Whether all the codes are pieces and all the squares are on the board.
pub open spec fn are_pieces(pieces: Seq<(u8, u8)>) -> bool {
    forall|i: int| 0 <= i < pieces.len() ==> (#[trigger] pieces[i]).0 % 8 < 6 && pieces[i].1 < 64
}

/// Whether the `i`th entry of the list puts the piece with number `p` on square `s`.
pub open spec fn puts(pieces: Seq<(u8, u8)>, stm_is_black: bool, i: int, p: int, s: int) -> bool {
    code_piece(pieces[i].0, stm_is_black) == p && code_square(pieces[i].1, stm_is_black) == s
}

/// A piece stands on a square exactly when an entry of the list puts it there.
pub proof fn lemma_piece_sets(pieces: Seq<(u8, u8)>, stm_is_black: bool, p: int, s: int)
    requires
        are_pieces(pieces),
        0 <= p < 12,
        0 <= s < 64,
    ensures
        piece_sets(pieces, stm_is_black).len() == 12,
        bits::member(piece_sets(pieces, stm_is_black)[p], s) <==> exists|i: int|
            0 <= i < pieces.len() && #[trigger] puts(pieces, stm_is_black, i, p, s),
    decreases pieces.len(),
{
    if pieces.len() == 0 {
        bits::lemma_has_ops(0, 0, s);
    } else {
        let few = pieces.drop_last();
        let n = pieces.len() - 1;
        assert forall|i: int| 0 <= i < few.len() implies (#[trigger] few[i]).0 % 8 < 6 && few[i].1
            < 64 by {
            assert(few[i] == pieces[i]);
        }
        lemma_piece_sets(few, stm_is_black, p, s);
        assert forall|i: int| 0 <= i < n implies (#[trigger] puts(pieces, stm_is_black, i, p, s)
            <==> puts(few, stm_is_black, i, p, s)) by {}
        let q = code_square(pieces[n].1, stm_is_black);
        assert(pieces.last() == pieces[n]);
        bits::lemma_has_ops(piece_sets(few, stm_is_black)[p], 1u64 << (q as u64), s);
        bits::lemma_has_single(q as u64, s);
        if exists|i: int| 0 <= i < few.len() && #[trigger] puts(few, stm_is_black, i, p, s) {
            let i = choose|i: int| 0 <= i < few.len() && #[trigger] puts(few, stm_is_black, i, p, s);
            assert(puts(pieces, stm_is_black, i, p, s));
        }
        if exists|i: int| 0 <= i < pieces.len() && #[trigger] puts(pieces, stm_is_black, i, p, s) {
            let i = choose|i: int|
                0 <= i < pieces.len() && #[trigger] puts(pieces, stm_is_black, i, p, s);
            if i < n {
                assert(puts(few, stm_is_black, i, p, s));
            }
        }
        assert(puts(pieces, stm_is_black, n, p, s) <==> code_piece(pieces[n].0, stm_is_black) == p
            && q == s);
    }
}

impl AresBoard {
    /// The position that a list of codes and squares describes, both as the side to move sees
    /// them.
    pub fn from_pieces(pieces: &Vec<(u8, u8)>, stm_is_black: bool) -> (r: Self)
        requires
            are_pieces(pieces@),
        ensures
            r@ == Position::of_sets(piece_sets(pieces@, stm_is_black)),
            r@.wf(),
    {
        let mut pieces12: [u64; 12] = [0u64; 12];
        let mut i: usize = 0;
        assert(pieces12@ =~= piece_sets(pieces@.take(0), stm_is_black));
        while i < pieces.len()
            invariant
                are_pieces(pieces@),
                i <= pieces@.len(),
                pieces12@ == piece_sets(pieces@.take(i as int), stm_is_black),
            decreases pieces@.len() - i,
        {
            let (piece, square): (u8, u8) = pieces[i];
            proof {
                assert(pieces@[i as int].0 % 8 < 6);
                types::lemma_byte_table(piece, 0);
                types::lemma_byte_table(piece >> 3, 0);
                types::lemma_byte_table(square, 0);
            }
            let rel_color: u8 = (piece >> 3) & 1;
            let pt: u8 = piece & 7;
            let mut sq: u8 = square;
            let mut color: u8 = rel_color;
            if stm_is_black {
                proof {
                    types::lemma_byte_table(color, 0);
                }
                sq = sq ^ 56;
                color = color ^ 1;
            }
            proof {
                types::lemma_byte_table(pt, color);
            }
            let idx: usize = ((pt << 1) | color) as usize;
            proof {
                assert(pieces@.take(i + 1).drop_last() == pieces@.take(i as int));
                assert(idx == code_piece(piece, stm_is_black));
                assert(sq == code_square(square, stm_is_black));
            }
            pieces12[idx] = pieces12[idx] | (1u64 << (sq as u64));
            i = i + 1;
        }
        assert(pieces@.take(i as int) == pieces@);
        Self::from_absolute(pieces12)
    }

    /// The position that a packed position stands for, the side to move being Black or not.
    pub fn from_bullet(board: &ChessBoard, stm_is_black: bool) -> (r: Self)
        requires
            bits::count(packed::board_occ(*board)) <= 32,
            are_pieces(packed::board_pieces(*board)),
        ensures
            r@ == Position::of_sets(piece_sets(packed::board_pieces(*board), stm_is_black)),
            r@.wf(),
            bits::count(r@.occ) <= bits::count(packed::board_occ(*board)),
    {
        let pieces: Vec<(u8, u8)> = packed::unpack(board);
        proof {
            lemma_piece_count(pieces@, stm_is_black);
        }
        Self::from_pieces(&pieces, stm_is_black)
    }
}

/// The highest square is a square.
proof fn lemma_highest_range(bb: u64, n: nat)
    ensures
        0 <= highest_below(bb, n),
        highest_below(bb, n) < n || highest_below(bb, n) == 0,
    decreases n,
{
    if n > 0 {
        lemma_highest_range(bb, (n - 1) as nat);
    }
}

/// Every twelve sets of squares describe a position.
pub proof fn lemma_of_sets_wf(sets: Seq<u64>)
    ensures
        Position::of_sets(sets).wf(),
{
    lemma_highest_range(sets[10], 64);
    lemma_highest_range(sets[11], 64);
    assert forall|s: int| 0 <= s < 64 implies (#[trigger] Position::of_sets(sets).pieces[s]).wf() by {
        lemma_last_set(sets, s, 12);
    }
}

/// A square is occupied exactly when one of the sets holds it.
pub proof fn lemma_union(sets: Seq<u64>, s: int, n: nat)
    requires
        0 <= s < 64,
        n <= 64,
    ensures
        bits::member(union_below(sets, n), s) <==> last_set(sets, s, n as int) >= 0,
    decreases n,
{
    if n == 0 {
        bits::lemma_has_ops(0, 0, s);
    } else {
        lemma_union(sets, s, (n - 1) as nat);
        bits::lemma_has_ops(union_below(sets, (n - 1) as nat), sets[n - 1], s);
    }
}

/// Whether no two entries of a list are on the same square.
pub open spec fn squares_distinct(pieces: Seq<(u8, u8)>) -> bool {
    forall|i: int, j: int|
        0 <= i < j < pieces.len() ==> (#[trigger] pieces[i]).1 != (#[trigger] pieces[j]).1
}

/// Whether the `i`th entry of a list is the only one with this code.
pub open spec fn is_only(pieces: Seq<(u8, u8)>, code: u8, i: int) -> bool {
    &&& 0 <= i < pieces.len()
    &&& pieces[i].0 % 16 == code
    &&& forall|j: int|
        0 <= j < pieces.len() && (#[trigger] pieces[j]).0 % 16 == code ==> j == i
}

/// The code of the king of the side to move.
pub const OWN_KING: u8 = 5;

/// The code of the other king.
pub const OTHER_KING: u8 = 13;

/// Whether each side has exactly one king.
pub open spec fn has_both_kings(pieces: Seq<(u8, u8)>) -> bool {
    (exists|i: int| is_only(pieces, OWN_KING, i)) && (exists|i: int| is_only(pieces, OTHER_KING, i))
}

/// Tells whether exactly one entry of a list has this code.
fn has_one(pieces: &Vec<(u8, u8)>, code: u8) -> (r: bool)
    ensures
        r == exists|i: int| is_only(pieces@, code, i),
{
    let mut found: Option<usize> = None;
    let mut k: usize = 0;
    while k < pieces.len()
        invariant
            k <= pieces@.len(),
            found matches Some(i) ==> i < k && pieces@[i as int].0 % 16 == code,
            forall|j: int|
                0 <= j < k && (#[trigger] pieces@[j]).0 % 16 == code ==> found == Some(j as usize),
        decreases pieces@.len() - k,
    {
        if pieces[k].0 % 16 == code {
            if let Some(i) = found {
                assert forall|j: int| !is_only(pieces@, code, j) by {
                    assert(pieces@[i as int].0 % 16 == code);
                    assert(pieces@[k as int].0 % 16 == code);
                }
                return false;
            }
            found = Some(k);
        }
        k = k + 1;
    }
    match found {
        Some(i) => {
            assert(is_only(pieces@, code, i as int));
            true
        },
        None => false,
    }
}

/// Tells whether each side has exactly one king.
pub fn check_both_kings(pieces: &Vec<(u8, u8)>) -> (r: bool)
    ensures
        r == has_both_kings(pieces@),
{
    has_one(pieces, OWN_KING) && has_one(pieces, OTHER_KING)
}

/// The piece and the square of an entry are a piece and a square.
proof fn lemma_code_range(entry: (u8, u8), stm_is_black: bool)
    requires
        entry.0 % 8 < 6,
        entry.1 < 64,
    ensures
        0 <= code_piece(entry.0, stm_is_black) < 12,
        0 <= code_square(entry.1, stm_is_black) < 64,
{
}

/// Different numbers are different squares.
proof fn lemma_code_square(a: u8, b: u8, stm_is_black: bool)
    requires
        a < 64,
        b < 64,
        code_square(a, stm_is_black) == code_square(b, stm_is_black),
    ensures
        a == b,
{
}

/// The set of the piece of an entry holds the square of the entry.
proof fn lemma_entry_set(pieces: Seq<(u8, u8)>, stm_is_black: bool, i: int)
    requires
        are_pieces(pieces),
        0 <= i < pieces.len(),
    ensures
        0 <= code_piece(pieces[i].0, stm_is_black) < 12,
        0 <= code_square(pieces[i].1, stm_is_black) < 64,
        bits::member(
            piece_sets(pieces, stm_is_black)[code_piece(pieces[i].0, stm_is_black)],
            code_square(pieces[i].1, stm_is_black),
        ),
{
    let s = code_square(pieces[i].1, stm_is_black);
    let q = code_piece(pieces[i].0, stm_is_black);
    lemma_code_range(pieces[i], stm_is_black);
    lemma_piece_sets(pieces, stm_is_black, q, s);
    assert(puts(pieces, stm_is_black, i, q, s));
}

/// With one entry for each square, no other set holds the square of an entry.
proof fn lemma_entry_only(pieces: Seq<(u8, u8)>, stm_is_black: bool, i: int, p: int)
    requires
        are_pieces(pieces),
        squares_distinct(pieces),
        0 <= i < pieces.len(),
        0 <= p < 12,
        bits::member(
            piece_sets(pieces, stm_is_black)[p],
            code_square(pieces[i].1, stm_is_black),
        ),
    ensures
        p == code_piece(pieces[i].0, stm_is_black),
{
    let s = code_square(pieces[i].1, stm_is_black);
    lemma_code_range(pieces[i], stm_is_black);
    lemma_piece_sets(pieces, stm_is_black, p, s);
    let j = choose|j: int| 0 <= j < pieces.len() && #[trigger] puts(pieces, stm_is_black, j, p, s);
    lemma_code_square(pieces[j].1, pieces[i].1, stm_is_black);
    if i < j {
        assert(pieces[i].1 != pieces[j].1);
    } else if j < i {
        assert(pieces[j].1 != pieces[i].1);
    }
}

/// The piece of an entry stands on the square of the entry.
pub proof fn lemma_entry(pieces: Seq<(u8, u8)>, stm_is_black: bool, i: int)
    requires
        are_pieces(pieces),
        squares_distinct(pieces),
        0 <= i < pieces.len(),
    ensures
        ({
            let p = Position::of_sets(piece_sets(pieces, stm_is_black));
            let s = code_square(pieces[i].1, stm_is_black);
            &&& 0 <= s < 64
            &&& bits::member(p.occ, s)
            &&& p.pieces[s].0 == code_piece(pieces[i].0, stm_is_black)
        }),
{
    let sets = piece_sets(pieces, stm_is_black);
    let s = code_square(pieces[i].1, stm_is_black);
    lemma_entry_set(pieces, stm_is_black, i);
    lemma_entry_occupied(pieces, stm_is_black, i);
    lemma_last_set(sets, s, 12);
    assert(last_set(sets, s, 12) >= code_piece(pieces[i].0, stm_is_black));
    lemma_entry_only(pieces, stm_is_black, i, last_set(sets, s, 12));
}

/// Where a square is occupied, an entry is the reason.
pub proof fn lemma_occupied(pieces: Seq<(u8, u8)>, stm_is_black: bool, s: int) -> (i: int)
    requires
        are_pieces(pieces),
        0 <= s < 64,
        bits::member(Position::of_sets(piece_sets(pieces, stm_is_black)).occ, s),
    ensures
        0 <= i < pieces.len(),
        code_square(pieces[i].1, stm_is_black) == s,
{
    let sets = piece_sets(pieces, stm_is_black);
    lemma_union(sets, s, 12);
    lemma_last_set(sets, s, 12);
    let last = last_set(sets, s, 12);
    lemma_piece_sets(pieces, stm_is_black, last, s);
    choose|i: int| 0 <= i < pieces.len() && #[trigger] puts(pieces, stm_is_black, i, last, s)
}

/// Codes stand for the same piece if their low four bits agree.
proof fn lemma_code_piece(c: u8, d: u8, stm_is_black: bool)
    ensures
        code_piece(c, stm_is_black) == code_piece(d, stm_is_black) <==> c % 16 == d % 16,
{
    assert(c % 16 == c % 8 + 8 * (c / 8 % 2));
    assert(d % 16 == d % 8 + 8 * (d / 8 % 2));
}

/// The square of an entry is occupied.
pub proof fn lemma_entry_occupied(pieces: Seq<(u8, u8)>, stm_is_black: bool, i: int)
    requires
        are_pieces(pieces),
        0 <= i < pieces.len(),
    ensures
        bits::member(
            Position::of_sets(piece_sets(pieces, stm_is_black)).occ,
            code_square(pieces[i].1, stm_is_black),
        ),
{
    let sets = piece_sets(pieces, stm_is_black);
    let s = code_square(pieces[i].1, stm_is_black);
    lemma_entry_set(pieces, stm_is_black, i);
    lemma_last_set(sets, s, 12);
    lemma_union(sets, s, 12);
    assert(last_set(sets, s, 12) >= code_piece(pieces[i].0, stm_is_black));
}

/// A position has at most as many pieces as the list that describes it.
pub proof fn lemma_piece_count(pieces: Seq<(u8, u8)>, stm_is_black: bool)
    requires
        are_pieces(pieces),
    ensures
        bits::count(Position::of_sets(piece_sets(pieces, stm_is_black)).occ) <= pieces.len(),
    decreases pieces.len(),
{
    let occ = Position::of_sets(piece_sets(pieces, stm_is_black)).occ;
    if pieces.len() == 0 {
        assert forall|u: int| bits::member(occ, u) implies bits::member(0, u) || u == -1 by {
            let i = lemma_occupied(pieces, stm_is_black, u);
        }
        bits::lemma_count_extended(occ, 0, -1, 64);
        bits::lemma_count_empty(64);
    } else {
        let fewer = pieces.drop_last();
        let rest = Position::of_sets(piece_sets(fewer, stm_is_black)).occ;
        lemma_piece_count(fewer, stm_is_black);
        let s = code_square(pieces.last().1, stm_is_black);
        assert forall|u: int| #[trigger] bits::member(occ, u) implies bits::member(rest, u) || u
            == s by {
            let i = lemma_occupied(pieces, stm_is_black, u);
            if i < fewer.len() {
                assert(fewer[i] == pieces[i]);
                lemma_entry_occupied(fewer, stm_is_black, i);
            }
        }
        bits::lemma_count_extended(occ, rest, s, 64);
    }
}

/// A king that is the only one of its side stands on the square of its entry.
pub proof fn lemma_king(pieces: Seq<(u8, u8)>, stm_is_black: bool, code: u8, i: int)
    requires
        are_pieces(pieces),
        code == OWN_KING || code == OTHER_KING,
        is_only(pieces, code, i),
    ensures
        highest(piece_sets(pieces, stm_is_black)[code_piece(code, stm_is_black)]) == code_square(
            pieces[i].1,
            stm_is_black,
        ),
{
    let q = code_piece(code, stm_is_black);
    let s = code_square(pieces[i].1, stm_is_black);
    let set = piece_sets(pieces, stm_is_black)[q];
    assert(pieces[i].1 < 64);
    lemma_code_piece(pieces[i].0, code, stm_is_black);
    assert(puts(pieces, stm_is_black, i, q, s));
    lemma_piece_sets(pieces, stm_is_black, q, s);
    assert forall|u: int| 0 <= u < 64 && u != s implies !bits::member(set, u) by {
        lemma_piece_sets(pieces, stm_is_black, q, u);
        if bits::member(set, u) {
            let j = choose|j: int|
                0 <= j < pieces.len() && #[trigger] puts(pieces, stm_is_black, j, q, u);
            lemma_code_piece(pieces[j].0, code, stm_is_black);
            assert(pieces[j].0 % 16 == code);
        }
    }
    lemma_highest(set, s, 64);
}

} // verus!
