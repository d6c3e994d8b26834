//! The attack tables and the look-ups in them.
use vstd::arithmetic::power2::*;
use vstd::bits::*;
use vstd::prelude::*;

use crate::attacks;
use crate::bits;
use crate::collisions;
use crate::geometry;
use crate::magics;
use crate::magics::{MagicEntry, MagicRow, BISHOP_MAGICS, BISHOP_MAP_SIZE, ROOK_MAGICS, ROOK_MAP_SIZE};
use crate::subsets;
use crate::types::{Bitboard, Color, Piece, PieceType, Square};

verus! {

/// The directions of a rook.
pub const ROOK_DIRS: [i8; 4] = [8, -8, 1, -1];

/// The directions of a bishop.
pub const BISHOP_DIRS: [i8; 4] = [9, 7, -7, -9];

/// Whether the slot for the occupied squares `occ` lies in a table of the given size.
pub open spec fn fits(e: MagicEntry, occ: u64, size: int) -> bool {
    e.shift < 64 && bits::count(e.mask) < 64 && magics::slot(occ, e) < size
}

/// Whether all the slots lie in a table of the given size.
pub open spec fn slots_inside(rows: Seq<MagicRow>, size: int) -> bool {
    forall|s: int, occ: u64| 0 <= s < 64 ==> #[trigger] fits(MagicEntry::of(rows[s]), occ, size)
}

/// Whether two different squares, or two different sets of blockers, never share a slot.
pub open spec fn slots_apart(rows: Seq<MagicRow>) -> bool {
    forall|s: int, a: u64, q: int, b: u64|
        #![trigger magics::slot(a, MagicEntry::of(rows[s])), magics::slot(b, MagicEntry::of(rows[q]))]
        0 <= s < 64 && 0 <= q < 64 && subsets::is_subset(a, MagicEntry::of(rows[s]).mask)
            && subsets::is_subset(b, MagicEntry::of(rows[q]).mask) && magics::slot(
            a,
            MagicEntry::of(rows[s]),
        ) == magics::slot(b, MagicEntry::of(rows[q])) ==> s == q && a == b
}

/// Whether the rows give every square, and every set of blockers around it, a slot of its own in a
/// table of the given size.
pub open spec fn separates(rows: Seq<MagicRow>, size: int) -> bool {
    rows.len() == 64 && slots_inside(rows, size) && slots_apart(rows)
}

/// Whether `word` holds the squares to which a piece slides from `s`, the blockers being `occ`.
pub open spec fn is_slide_set(word: u64, s: int, occ: u64, dirs: Seq<i8>) -> bool {
    forall|t: int|
        0 <= t < 64 ==> (#[trigger] bits::member(word, t) <==> attacks::slides_any(s, occ, dirs, t))
}

/// Fills the table of a sliding piece: for every square and every set of blockers on its mask, the
/// slot holds the squares to which the piece slides.
fn gen_sliding_map(size: usize, rows: &[MagicRow], dirs: &[i8]) -> (map: Vec<u64>)
    requires
        separates(rows@, size as int),
        forall|i: int| 0 <= i < dirs@.len() ==> -64 < #[trigger] dirs@[i] < 64,
    ensures
        map@.len() == size,
        forall|s: int, a: u64|
            0 <= s < 64 && subsets::is_subset(a, MagicEntry::of(rows@[s]).mask) ==> is_slide_set(
                map@[#[trigger] magics::slot(a, MagicEntry::of(rows@[s]))],
                s,
                a,
                dirs@,
            ),
{
    let mut map: Vec<u64> = vec![0u64; size];
    let mut square: u8 = 0;
    while square < 64
        invariant
            square <= 64,
            separates(rows@, size as int),
            forall|i: int| 0 <= i < dirs@.len() ==> -64 < #[trigger] dirs@[i] < 64,
            map@.len() == size,
            forall|s: int, a: u64|
                0 <= s < square && subsets::is_subset(a, MagicEntry::of(rows@[s]).mask)
                    ==> is_slide_set(
                    map@[#[trigger] magics::slot(a, MagicEntry::of(rows@[s]))],
                    s,
                    a,
                    dirs@,
                ),
        decreases 64 - square,
    {
        let e: MagicEntry = MagicEntry::from_row(rows[square as usize]);
        let mut occ: u64 = 0;
        assert(fits(MagicEntry::of(rows@[square as int]), 0, size as int));
        let perms: u64 = 1u64 << e.mask.count_ones();
        proof {
            lemma_u64_pow2_no_overflow(bits::count(e.mask));
            lemma_u64_shl_is_mul(1, bits::count(e.mask) as u64);
            subsets::lemma_rank_empty(e.mask, 64);
            lemma_pow2_pos(bits::count(e.mask));
        }
        assert(perms == pow2(bits::count(e.mask)));
        let mut j: u64 = 0;
        while j < perms
            invariant
                square < 64,
                j <= perms,
                perms == pow2(bits::count(e.mask)),
                e == MagicEntry::of(rows@[square as int]),
                separates(rows@, size as int),
                forall|i: int| 0 <= i < dirs@.len() ==> -64 < #[trigger] dirs@[i] < 64,
                map@.len() == size,
                subsets::is_subset(occ, e.mask),
                j < perms ==> subsets::rank(occ, e.mask) == j,
                forall|s: int, a: u64|
                    0 <= s < square && subsets::is_subset(a, MagicEntry::of(rows@[s]).mask)
                        ==> is_slide_set(
                        map@[#[trigger] magics::slot(a, MagicEntry::of(rows@[s]))],
                        s,
                        a,
                        dirs@,
                    ),
                forall|a: u64|
                    subsets::is_subset(a, e.mask) && subsets::rank(a, e.mask) < j ==> is_slide_set(
                        map@[#[trigger] magics::slot(a, e)],
                        square as int,
                        a,
                        dirs@,
                    ),
            decreases perms - j,
        {
            assert(fits(MagicEntry::of(rows@[square as int]), occ, size as int));
            let hash: usize = magics::magic_index(occ, &e);
            let slide: u64 = attacks::sliding_attacks(square, occ, dirs);
            let ghost before = map@;
            map[hash] = slide;
            proof {
                assert forall|s: int, a: u64|
                    0 <= s < square && subsets::is_subset(
                        a,
                        MagicEntry::of(rows@[s]).mask,
                    ) implies is_slide_set(
                    map@[#[trigger] magics::slot(a, MagicEntry::of(rows@[s]))],
                    s,
                    a,
                    dirs@,
                ) by {
                    assert(fits(MagicEntry::of(rows@[s]), a, size as int));
                    assert(magics::slot(a, MagicEntry::of(rows@[s])) != magics::slot(
                        occ,
                        MagicEntry::of(rows@[square as int]),
                    ));
                }
                assert forall|a: u64|
                    subsets::is_subset(a, e.mask) && subsets::rank(a, e.mask) < j
                        + 1 implies is_slide_set(
                    map@[#[trigger] magics::slot(a, e)],
                    square as int,
                    a,
                    dirs@,
                ) by {
                    assert(fits(MagicEntry::of(rows@[square as int]), a, size as int));
                    subsets::lemma_rank(a, occ, e.mask);
                    if a != occ {
                        assert(magics::slot(a, MagicEntry::of(rows@[square as int]))
                            != magics::slot(occ, MagicEntry::of(rows@[square as int])));
                    }
                }
                subsets::lemma_next_subset(occ, e.mask);
            }
            occ = occ.wrapping_sub(e.mask) & e.mask;
            j = j + 1;
        }
        proof {
            assert forall|s: int, a: u64|
                0 <= s < square + 1 && subsets::is_subset(
                    a,
                    MagicEntry::of(rows@[s]).mask,
                ) implies is_slide_set(
                map@[#[trigger] magics::slot(a, MagicEntry::of(rows@[s]))],
                s,
                a,
                dirs@,
            ) by {
                if s == square {
                    subsets::lemma_rank(a, a, e.mask);
                }
            }
        }
        square = square + 1;
    }
    map
}

/// Behind the mask no blocker makes a difference.
proof fn lemma_masked(kind: PieceType, s: int, t: int, occ: u64)
    requires
        collisions::has_table(kind),
        0 <= s < 64,
        0 <= t < 64,
    ensures
        geometry::attacks(kind, Color::White, s, t, occ) <==> geometry::attacks(
            kind,
            Color::White,
            s,
            t,
            occ & magics::entry(kind, s).mask,
        ),
{
    let mask = magics::entry(kind, s).mask;
    if geometry::reaches(kind, Color::White, s, t) {
        geometry::lemma_line(s, t);
        let (n, d) = (geometry::distance(s, t), geometry::direction(s, t));
        assert forall|k: int| 1 <= k < n implies bits::member(
            occ & mask,
            #[trigger] geometry::ray(s, d, k),
        ) == bits::member(occ, geometry::ray(s, d, k)) by {
            let q = geometry::ray(s, d, k);
            geometry::lemma_ray_inside(s, t, k);
            geometry::lemma_ray_inside(s, t, n);
            let (df, dr) = (
                geometry::sign(geometry::file_step(s, t)),
                geometry::sign(geometry::rank_step(s, t)),
            );
            geometry::lemma_unit_multiple(k, df);
            geometry::lemma_unit_multiple(k, dr);
            geometry::lemma_unit_multiple(n, df);
            geometry::lemma_unit_multiple(n, dr);
            collisions::lemma_mask(kind, s, q);
            bits::lemma_has_ops(occ, mask, q);
        }
    }
}

/// Sliding in the directions of a rook or of a bishop is what these pieces attack.
proof fn lemma_slider(kind: PieceType, s: int, t: int, occ: u64)
    requires
        collisions::has_table(kind),
        0 <= s < 64,
        0 <= t < 64,
    ensures
        attacks::slides_any(s, occ, slider_dirs(kind), t) <==> geometry::attacks(
            kind,
            Color::White,
            s,
            t,
            occ,
        ),
{
    let dirs = slider_dirs(kind);
    attacks::lemma_slides(s, occ, dirs[0] as int, t);
    attacks::lemma_slides(s, occ, dirs[1] as int, t);
    attacks::lemma_slides(s, occ, dirs[2] as int, t);
    attacks::lemma_slides(s, occ, dirs[3] as int, t);
}

/// The directions of a rook or of a bishop.
pub open spec fn slider_dirs(kind: PieceType) -> Seq<i8> {
    if kind is Rook {
        ROOK_DIRS@
    } else {
        BISHOP_DIRS@
    }
}

/// The rows of a rook or of a bishop.
spec fn slider_rows(kind: PieceType) -> Seq<MagicRow> {
    if kind is Rook {
        ROOK_MAGICS@
    } else {
        BISHOP_MAGICS@
    }
}

/// The magic numbers give every square and every set of blockers a slot of its own.
proof fn lemma_separates(kind: PieceType)
    requires
        collisions::has_table(kind),
    ensures
        separates(slider_rows(kind), magics::map_size(kind)),
        forall|s: int|
            0 <= s < 64 ==> #[trigger] MagicEntry::of(slider_rows(kind)[s]) == magics::entry(kind, s),
{
    let rows = slider_rows(kind);
    assert(rows.len() == 64);
    assert forall|s: int, occ: u64| 0 <= s < 64 implies #[trigger] fits(
        MagicEntry::of(rows[s]),
        occ,
        magics::map_size(kind),
    ) by {
        collisions::lemma_slot_range(kind, s, occ);
        collisions::lemma_mask(kind, s, s);
        bits::lemma_count_gap(magics::entry(kind, s).mask, s, 64);
    }
    assert forall|s: int, a: u64, q: int, b: u64|
        #![trigger magics::slot(a, MagicEntry::of(rows[s])), magics::slot(b, MagicEntry::of(rows[q]))]
        0 <= s < 64 && 0 <= q < 64 && subsets::is_subset(a, MagicEntry::of(rows[s]).mask)
            && subsets::is_subset(b, MagicEntry::of(rows[q]).mask) && magics::slot(
            a,
            MagicEntry::of(rows[s]),
        ) == magics::slot(b, MagicEntry::of(rows[q])) implies s == q && a == b by {
        collisions::lemma_slot_range(kind, s, a);
        collisions::lemma_slot_range(kind, q, b);
        if s < q {
            collisions::lemma_slots(kind, s, q);
        } else if q < s {
            collisions::lemma_slots(kind, q, s);
        } else {
            collisions::lemma_perfect(kind, s, a, b);
        }
    }
}

/// Whether `word` holds the squares that a piece on `s` attacks when `occ` is occupied.
pub open spec fn is_attack_set(word: u64, kind: PieceType, side: Color, s: int, occ: u64) -> bool {
    forall|t: int|
        0 <= t < 64 ==> (#[trigger] bits::member(word, t) <==> geometry::attacks(
            kind,
            side,
            s,
            t,
            occ,
        ))
}

/// The attacks of all the pieces: by square, and for rooks and bishops by slot.
pub struct Tables {
    king: Vec<u64>,
    knight: Vec<u64>,
    white_pawn: Vec<u64>,
    black_pawn: Vec<u64>,
    rook: Vec<u64>,
    bishop: Vec<u64>,
}

spec fn is_leaper_table(words: Seq<u64>, kind: PieceType, side: Color, n: int) -> bool {
    words.len() == n && forall|s: int, occ: u64|
        0 <= s < n ==> #[trigger] is_attack_set(words[s], kind, side, s, occ)
}

spec fn is_slider_table(words: Seq<u64>, kind: PieceType) -> bool {
    words.len() == magics::map_size(kind) && forall|s: int, occ: u64|
        0 <= s < 64 ==> is_attack_set(
            words[#[trigger] magics::slot(occ, magics::entry(kind, s))],
            kind,
            Color::White,
            s,
            occ,
        )
}

impl Tables {
    /// Every entry is the set of the squares that the piece attacks.
    #[verifier::type_invariant]
    pub closed spec fn wf(self) -> bool {
        &&& is_leaper_table(self.king@, PieceType::King, Color::White, 64)
        &&& is_leaper_table(self.knight@, PieceType::Knight, Color::White, 64)
        &&& is_leaper_table(self.white_pawn@, PieceType::Pawn, Color::White, 64)
        &&& is_leaper_table(self.black_pawn@, PieceType::Pawn, Color::Black, 64)
        &&& is_slider_table(self.rook@, PieceType::Rook)
        &&& is_slider_table(self.bishop@, PieceType::Bishop)
    }
}

/// A table with the slides from all the masks is a table of the attacks.
proof fn lemma_slider_table(words: Seq<u64>, kind: PieceType)
    requires
        collisions::has_table(kind),
        words.len() == magics::map_size(kind),
        forall|s: int, a: u64|
            0 <= s < 64 && subsets::is_subset(a, MagicEntry::of(slider_rows(kind)[s]).mask)
                ==> is_slide_set(
                words[#[trigger] magics::slot(a, MagicEntry::of(slider_rows(kind)[s]))],
                s,
                a,
                slider_dirs(kind),
            ),
    ensures
        is_slider_table(words, kind),
{
    lemma_separates(kind);
    assert forall|s: int, occ: u64| 0 <= s < 64 implies is_attack_set(
        words[#[trigger] magics::slot(occ, magics::entry(kind, s))],
        kind,
        Color::White,
        s,
        occ,
    ) by {
        let e = magics::entry(kind, s);
        let a = occ & e.mask;
        let mask = e.mask;
        assert((occ & mask) & mask == occ & mask) by (bit_vector);
        assert(MagicEntry::of(slider_rows(kind)[s]) == e);
        assert(magics::slot(occ, e) == magics::slot(a, MagicEntry::of(slider_rows(kind)[s])));
        let word = words[magics::slot(occ, e)];
        assert forall|t: int| 0 <= t < 64 implies (#[trigger] bits::member(word, t)
            <==> geometry::attacks(kind, Color::White, s, t, occ)) by {
            lemma_slider(kind, s, t, a);
            lemma_masked(kind, s, t, occ);
        }
    }
}

/// Computes all the tables.
pub fn tables() -> (r: Tables)
    ensures
        r.wf(),
{
    let mut king: Vec<u64> = Vec::new();
    let mut knight: Vec<u64> = Vec::new();
    let mut white_pawn: Vec<u64> = Vec::new();
    let mut black_pawn: Vec<u64> = Vec::new();
    let mut s: u8 = 0;
    while s < 64
        invariant
            s <= 64,
            is_leaper_table(king@, PieceType::King, Color::White, s as int),
            is_leaper_table(knight@, PieceType::Knight, Color::White, s as int),
            is_leaper_table(white_pawn@, PieceType::Pawn, Color::White, s as int),
            is_leaper_table(black_pawn@, PieceType::Pawn, Color::Black, s as int),
        decreases 64 - s,
    {
        king.push(attacks::king_attacks_gen(s));
        knight.push(attacks::knight_attacks_gen(s));
        white_pawn.push(attacks::pawn_attacks_gen(s, true));
        black_pawn.push(attacks::pawn_attacks_gen(s, false));
        s = s + 1;
    }
    proof {
        lemma_separates(PieceType::Rook);
        lemma_separates(PieceType::Bishop);
    }
    let rook: Vec<u64> = gen_sliding_map(ROOK_MAP_SIZE, &ROOK_MAGICS, &ROOK_DIRS);
    let bishop: Vec<u64> = gen_sliding_map(BISHOP_MAP_SIZE, &BISHOP_MAGICS, &BISHOP_DIRS);
    proof {
        lemma_slider_table(rook@, PieceType::Rook);
        lemma_slider_table(bishop@, PieceType::Bishop);
    }
    Tables { king, knight, white_pawn, black_pawn, rook, bishop }
}

impl Tables {
    /// The squares that a pawn attacks.
    pub fn pawn_attacks(&self, sq: Square, c: Color) -> (r: Bitboard)
        requires
            sq.wf(),
        ensures
            forall|occ: u64| #[trigger] is_attack_set(r.0, PieceType::Pawn, c, sq.0 as int, occ),
    {
        proof {
            use_type_invariant(self);
        }
        match c {
            Color::White => Bitboard(self.white_pawn[sq.0 as usize]),
            Color::Black => Bitboard(self.black_pawn[sq.0 as usize]),
        }
    }

    /// The squares that a king attacks.
    pub fn king_attacks(&self, sq: Square) -> (r: Bitboard)
        requires
            sq.wf(),
        ensures
            forall|c: Color, occ: u64| #[trigger]
                is_attack_set(r.0, PieceType::King, c, sq.0 as int, occ),
    {
        proof {
            use_type_invariant(self);
            lemma_any_side(self.king@[sq.0 as int], PieceType::King, sq.0 as int);
        }
        Bitboard(self.king[sq.0 as usize])
    }

    /// The squares that a knight attacks.
    pub fn knight_attacks(&self, sq: Square) -> (r: Bitboard)
        requires
            sq.wf(),
        ensures
            forall|c: Color, occ: u64| #[trigger]
                is_attack_set(r.0, PieceType::Knight, c, sq.0 as int, occ),
    {
        proof {
            use_type_invariant(self);
            lemma_any_side(self.knight@[sq.0 as int], PieceType::Knight, sq.0 as int);
        }
        Bitboard(self.knight[sq.0 as usize])
    }

    /// The squares that a rook attacks.
    pub fn rook_attacks(&self, sq: Square, occ: Bitboard) -> (r: Bitboard)
        requires
            sq.wf(),
        ensures
            forall|c: Color| #[trigger]
                is_attack_set(r.0, PieceType::Rook, c, sq.0 as int, occ.0),
    {
        let e: MagicEntry = MagicEntry::from_row(ROOK_MAGICS[sq.0 as usize]);
        proof {
            use_type_invariant(self);
            collisions::lemma_slot_range(PieceType::Rook, sq.0 as int, occ.0);
        }
        Bitboard(self.rook[magics::magic_index(occ.0, &e)])
    }

    /// The squares that a bishop attacks.
    pub fn bishop_attacks(&self, sq: Square, occ: Bitboard) -> (r: Bitboard)
        requires
            sq.wf(),
        ensures
            forall|c: Color| #[trigger]
                is_attack_set(r.0, PieceType::Bishop, c, sq.0 as int, occ.0),
    {
        let e: MagicEntry = MagicEntry::from_row(BISHOP_MAGICS[sq.0 as usize]);
        proof {
            use_type_invariant(self);
            collisions::lemma_slot_range(PieceType::Bishop, sq.0 as int, occ.0);
        }
        Bitboard(self.bishop[magics::magic_index(occ.0, &e)])
    }

    /// The squares that a queen attacks.
    pub fn queen_attacks(&self, sq: Square, occ: Bitboard) -> (r: Bitboard)
        requires
            sq.wf(),
        ensures
            forall|c: Color| #[trigger]
                is_attack_set(r.0, PieceType::Queen, c, sq.0 as int, occ.0),
    {
        let (rook, bishop): (Bitboard, Bitboard) = (
            self.rook_attacks(sq, occ),
            self.bishop_attacks(sq, occ),
        );
        let r: Bitboard = Bitboard(rook.0 | bishop.0);
        proof {
            let s = sq.0 as int;
            assert forall|c: Color| #[trigger]
                is_attack_set(r.0, PieceType::Queen, c, s, occ.0) by {
                assert(is_attack_set(rook.0, PieceType::Rook, c, s, occ.0));
                assert(is_attack_set(bishop.0, PieceType::Bishop, c, s, occ.0));
                assert forall|t: int| 0 <= t < 64 implies (#[trigger] bits::member(r.0, t)
                    <==> geometry::attacks(PieceType::Queen, c, s, t, occ.0)) by {
                    bits::lemma_has_ops(rook.0, bishop.0, t);
                }
            }
        }
        r
    }

    /// The squares that a piece attacks when the squares of `occ` are occupied.
    pub fn attacks(&self, piece: Piece, sq: Square, occ: Bitboard) -> (r: Bitboard)
        requires
            sq.wf(),
        ensures
            is_attack_set(r.0, piece.kind(), piece.side(), sq.0 as int, occ.0),
    {
        match piece.piece_type() {
            PieceType::Pawn => self.pawn_attacks(sq, piece.color()),
            PieceType::Knight => self.knight_attacks(sq),
            PieceType::Bishop => self.bishop_attacks(sq, occ),
            PieceType::Rook => self.rook_attacks(sq, occ),
            PieceType::Queen => self.queen_attacks(sq, occ),
            PieceType::King => self.king_attacks(sq),
        }
    }
}

/// Pieces other than pawns attack the same squares whatever their colour.
proof fn lemma_any_side(word: u64, kind: PieceType, s: int)
    requires
        kind is King || kind is Knight,
        forall|occ: u64| #[trigger] is_attack_set(word, kind, Color::White, s, occ),
    ensures
        forall|c: Color, occ: u64| #[trigger] is_attack_set(word, kind, c, s, occ),
{
    assert forall|c: Color, occ: u64| #[trigger] is_attack_set(word, kind, c, s, occ) by {
        assert(is_attack_set(word, kind, Color::White, s, occ));
        assert forall|t: int| 0 <= t < 64 implies (#[trigger] bits::member(word, t)
            <==> geometry::attacks(kind, c, s, t, occ)) by {
            assert(geometry::attacks(kind, c, s, t, occ) == geometry::attacks(
                kind,
                Color::White,
                s,
                t,
                occ,
            ));
        }
    }
}

} // verus!
