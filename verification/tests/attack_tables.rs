use ares_features::attacks::{
    generate_slide, king_attacks_gen, knight_attacks_gen, pawn_attacks_gen, shift_dir, shift_dirs,
    sliding_attacks,
};
use ares_features::magics::{
    magic_index, MagicEntry, BISHOP_MAGICS, BISHOP_MAP_SIZE, ROOK_MAGICS, ROOK_MAP_SIZE,
};
use ares_features::tables::{tables, BISHOP_DIRS, ROOK_DIRS};
use ares_features::types::{Bitboard, Color, Piece, PieceType, Square};

const ROOK_STEPS: [(i32, i32); 4] = [(0, 1), (0, -1), (1, 0), (-1, 0)];
const BISHOP_STEPS: [(i32, i32); 4] = [(1, 1), (-1, 1), (1, -1), (-1, -1)];

fn walk(sq: u8, occ: u64, steps: &[(i32, i32)]) -> u64 {
    let mut seen = 0u64;
    for (df, dr) in steps {
        let mut f = (sq % 8) as i32 + df;
        let mut r = (sq / 8) as i32 + dr;
        while (0..8).contains(&f) && (0..8).contains(&r) {
            let bit = 1u64 << (8 * r + f);
            seen |= bit;
            if occ & bit != 0 {
                break;
            }
            f += df;
            r += dr;
        }
    }
    seen
}

fn leap(sq: u8, steps: &[(i32, i32)]) -> u64 {
    let mut seen = 0u64;
    for (df, dr) in steps {
        let f = (sq % 8) as i32 + df;
        let r = (sq / 8) as i32 + dr;
        if (0..8).contains(&f) && (0..8).contains(&r) {
            seen |= 1u64 << (8 * r + f);
        }
    }
    seen
}

fn random(state: &mut u64) -> u64 {
    *state ^= *state << 13;
    *state ^= *state >> 7;
    *state ^= *state << 17;
    *state
}

#[test]
fn steps_stop_at_the_edges() {
    assert_eq!(shift_dir(0x0000_0000_1000_0000, 8), 0x0000_0010_0000_0000);
    assert_eq!(shift_dir(0x0000_0000_1000_0000, -8), 0x0000_0000_0010_0000);
    assert_eq!(shift_dir(0x0000_0000_0000_0080, 1), 0);
    assert_eq!(shift_dir(0x0000_0000_0000_0100, -1), 0);
    assert_eq!(shift_dir(0x0000_0000_0000_0081, 9), 0x200);
    assert_eq!(shift_dir(0x8100_0000_0000_0000, -7), 0x0002_0000_0000_0000);
    assert_eq!(shift_dir(0xFF00_0000_0000_0000, 8), 0);
    assert_eq!(shift_dir(u64::MAX, 0), u64::MAX);
}

#[test]
fn steps_of_several_directions() {
    assert_eq!(shift_dirs(0x0000_0000_1000_0000, &[8, -8, 1, -1]), 0x0000_0010_2810_0000);
    assert_eq!(shift_dirs(0x0000_0000_1000_0000, &[]), 0);
}

#[test]
fn slides_stop_at_the_first_piece() {
    assert_eq!(generate_slide(0, 0, 8), 0x0101_0101_0101_0100);
    assert_eq!(generate_slide(0, 0x0000_0001_0000_0000, 8), 0x0000_0001_0101_0100);
    assert_eq!(generate_slide(7, 0, 1), 0);
    assert_eq!(generate_slide(0, 0x0000_0000_0000_0100, 8), 0x100);
    assert_eq!(sliding_attacks(0, 0, &BISHOP_DIRS), 0x8040_2010_0804_0200);
    assert_eq!(sliding_attacks(0, 0, &ROOK_DIRS), 0x0101_0101_0101_01FE);
    assert_eq!(sliding_attacks(0, 0, &[]), 0);
}

#[test]
fn leaps_from_every_square() {
    let knight = [(1, 2), (2, 1), (-1, 2), (-2, 1), (1, -2), (2, -1), (-1, -2), (-2, -1)];
    let king = [(0, 1), (0, -1), (1, 0), (-1, 0), (1, 1), (-1, 1), (1, -1), (-1, -1)];
    let tables = tables();
    for s in 0..64u8 {
        let white = leap(s, &[(1, 1), (-1, 1)]);
        let black = leap(s, &[(1, -1), (-1, -1)]);
        assert_eq!(knight_attacks_gen(s), leap(s, &knight));
        assert_eq!(king_attacks_gen(s), leap(s, &king));
        assert_eq!(pawn_attacks_gen(s, true), white);
        assert_eq!(pawn_attacks_gen(s, false), black);
        assert_eq!(tables.knight_attacks(Square(s)), Bitboard(leap(s, &knight)));
        assert_eq!(tables.king_attacks(Square(s)), Bitboard(leap(s, &king)));
        assert_eq!(tables.pawn_attacks(Square(s), Color::White), Bitboard(white));
        assert_eq!(tables.pawn_attacks(Square(s), Color::Black), Bitboard(black));
    }
    assert_eq!(knight_attacks_gen(0), 0x0000_0000_0002_0400);
    assert_eq!(king_attacks_gen(63), 0x40C0_0000_0000_0000);
}

#[test]
fn magic_entries_of_the_first_squares() {
    let rook = MagicEntry::from_row(ROOK_MAGICS[0]);
    assert_eq!(rook.mask, 0x0001_0101_0101_017E);
    assert_eq!(rook.magic, 0x1080_0180_2270_4002);
    assert_eq!(rook.shift, 52);
    assert_eq!(rook.offset, 0);
    let bishop = MagicEntry::from_row(BISHOP_MAGICS[1]);
    assert_eq!(bishop.shift, 59);
    assert_eq!(bishop.offset, 64);
    assert_eq!(magic_index(0, &bishop), 64);
    // A piece on c3 is not on the lines of a rook on a1.
    assert_eq!(magic_index(0x0004_0002, &rook), (2u64.wrapping_mul(rook.magic) >> 52) as usize);
    assert_eq!(magic_index(0x0004_0002, &rook), magic_index(2, &rook));
}

#[test]
fn magic_slots_are_inside_and_apart() {
    for (rows, size) in [(ROOK_MAGICS, ROOK_MAP_SIZE), (BISHOP_MAGICS, BISHOP_MAP_SIZE)] {
        let mut used = vec![false; size];
        for row in rows {
            let entry = MagicEntry::from_row(row);
            let mut occ = 0u64;
            loop {
                let slot = magic_index(occ, &entry);
                assert!(!used[slot]);
                used[slot] = true;
                occ = occ.wrapping_sub(entry.mask) & entry.mask;
                if occ == 0 {
                    break;
                }
            }
        }
        assert!(used.iter().all(|u| *u));
    }
}

#[test]
fn sliders_see_up_to_the_first_piece() {
    let tables = tables();
    let mut state = 0x9E37_79B9_7F4A_7C15u64;
    for _ in 0..200 {
        let occ = random(&mut state) & random(&mut state);
        for s in 0..64u8 {
            let rook = walk(s, occ, &ROOK_STEPS);
            let bishop = walk(s, occ, &BISHOP_STEPS);
            assert_eq!(tables.rook_attacks(Square(s), Bitboard(occ)), Bitboard(rook));
            assert_eq!(tables.bishop_attacks(Square(s), Bitboard(occ)), Bitboard(bishop));
            assert_eq!(tables.queen_attacks(Square(s), Bitboard(occ)), Bitboard(rook | bishop));
        }
    }
}

#[test]
fn attacks_by_kind_of_piece() {
    let tables = tables();
    let occ = Bitboard(0x00FF_0000_0000_FF00);
    let queen = Piece::new(Color::White, PieceType::Queen);
    assert_eq!(tables.attacks(queen, Square(27), occ), Bitboard(0x0049_2A1C_F71C_2A00));
    let rook = Piece::new(Color::Black, PieceType::Rook);
    assert_eq!(tables.attacks(rook, Square(0), Bitboard(0x100)), Bitboard(0x1FE));
    let bishop = Piece::new(Color::Black, PieceType::Bishop);
    assert_eq!(tables.attacks(bishop, Square(0), Bitboard(0)), Bitboard(0x8040_2010_0804_0200));
    let knight = Piece::new(Color::White, PieceType::Knight);
    assert_eq!(tables.attacks(knight, Square(0), occ), Bitboard(0x0002_0400));
    let king = Piece::new(Color::White, PieceType::King);
    assert_eq!(tables.attacks(king, Square(0), occ), Bitboard(0x0302));
    let white = Piece::new(Color::White, PieceType::Pawn);
    let black = Piece::new(Color::Black, PieceType::Pawn);
    assert_eq!(tables.attacks(white, Square(12), occ), Bitboard(0x0028_0000));
    assert_eq!(tables.attacks(black, Square(12), occ), Bitboard(0x28));
}
