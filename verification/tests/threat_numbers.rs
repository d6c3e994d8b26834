use ares_features::tables::tables;
use ares_features::threats::{threat_lut, PiecePair, NUM_THREATS};
use ares_features::types::{Bitboard, Color, Piece, PieceType, Square};

fn piece(color: Color, kind: PieceType) -> Piece {
    Piece::new(color, kind)
}

#[test]
fn pairs_pack_flags_and_base() {
    let (low, high) = (Square(3), Square(40));
    let plain = PiecePair::new(false, false, 1234);
    assert_eq!(plain.base(low, high), 1234);
    assert_eq!(plain.base(high, low), 1234);
    let semi = PiecePair::new(false, true, 1234);
    assert_eq!(semi.base(low, high), 1234 - 0x8000_0000);
    assert_eq!(semi.base(high, low), 1234);
    assert_eq!(semi.base(low, low), 1234);
    let excluded = PiecePair::new(true, false, 1234);
    assert!(excluded.base(low, high) < 0);
    assert!(excluded.base(high, low) < 0);
    let both = PiecePair::new(true, true, 1234);
    assert_eq!(both.base(high, low), 1234 - 0x8000_0000);
    assert_eq!(both.base(low, high), 1234 - 0x8000_0000);
}

#[test]
fn numbers_of_single_threats() {
    let lut = threat_lut(&tables());
    let (w, b) = (Color::White, Color::Black);
    let knight = piece(w, PieceType::Knight);
    let pawn = piece(b, PieceType::Pawn);
    assert_eq!(lut.threat_index(knight, Square(28), pawn, Square(43), false, w), 2332);
    assert_eq!(lut.threat_index(knight, Square(28), pawn, Square(43), false, b), 34130);
    assert_eq!(lut.threat_index(knight, Square(28), pawn, Square(43), true, w), 2325);
    let own = piece(w, PieceType::Pawn);
    assert_eq!(lut.threat_index(own, Square(8), own, Square(17), false, w), 0);
    let king = piece(b, PieceType::King);
    let rook = piece(b, PieceType::Rook);
    assert_eq!(lut.threat_index(king, Square(63), rook, Square(62), false, w), 66863);
}

#[test]
fn mutual_threats_count_once() {
    let lut = threat_lut(&tables());
    let (w, b) = (Color::White, Color::Black);
    let (pawn, other) = (piece(w, PieceType::Pawn), piece(b, PieceType::Pawn));
    assert_eq!(lut.threat_index(pawn, Square(8), other, Square(17), false, w), -2147483396);
    assert_eq!(lut.threat_index(other, Square(17), pawn, Square(8), false, w), 33447);
    let (rook, enemy) = (piece(w, PieceType::Rook), piece(b, PieceType::Rook));
    assert_eq!(lut.threat_index(rook, Square(0), enemy, Square(56), false, w), -2147469019);
    assert_eq!(lut.threat_index(enemy, Square(56), rook, Square(0), false, w), 45248);
    // Seen by Black the board is turned, and the other one of the two threats counts.
    assert!(lut.threat_index(rook, Square(0), enemy, Square(56), false, b) >= 0);
    assert!(lut.threat_index(enemy, Square(56), rook, Square(0), false, b) < 0);
}

#[test]
fn threats_against_kings_are_left_out() {
    let lut = threat_lut(&tables());
    let w = Color::White;
    let king = piece(w, PieceType::King);
    let other = piece(Color::Black, PieceType::King);
    assert_eq!(lut.threat_index(king, Square(4), other, Square(12), false, w), -2147452295);
    let pawn = piece(w, PieceType::Pawn);
    let queen = piece(Color::Black, PieceType::Queen);
    assert!(lut.threat_index(pawn, Square(8), queen, Square(17), false, w) < 0);
    let bishop = piece(Color::Black, PieceType::Bishop);
    assert!(lut.threat_index(pawn, Square(8), bishop, Square(17), false, w) < 0);
}

#[test]
fn no_two_threats_share_a_number() {
    let tables = tables();
    let lut = threat_lut(&tables);
    let mut seen = vec![false; NUM_THREATS];
    let mut numbered = 0;
    for a in 0..12u8 {
        for s in 0..64u8 {
            if a < 2 && !(8..56).contains(&s) {
                continue;
            }
            let mut targets = tables.attacks(Piece(a), Square(s), Bitboard(0));
            while let Some(t) = targets.next() {
                for d in 0..12u8 {
                    let n = lut.threat_index(Piece(a), Square(s), Piece(d), t, false, Color::White);
                    if n >= 0 {
                        assert!(!seen[n as usize]);
                        seen[n as usize] = true;
                        numbered += 1;
                    }
                }
            }
        }
    }
    assert_eq!(numbered, 60284);
}
