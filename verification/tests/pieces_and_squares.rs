use ares_features::types::{Bitboard, Color, Piece, PieceType, Square};

const KINDS: [PieceType; 6] = [
    PieceType::Pawn,
    PieceType::Knight,
    PieceType::Bishop,
    PieceType::Rook,
    PieceType::Queen,
    PieceType::King,
];

#[test]
fn colors_are_opposite() {
    assert_eq!(!Color::White, Color::Black);
    assert_eq!(!Color::Black, Color::White);
    assert_eq!(Color::White.index(), 0);
    assert_eq!(Color::Black.index(), 1);
}

#[test]
fn piece_types_by_number() {
    for (i, kind) in KINDS.iter().enumerate() {
        assert_eq!(PieceType::new(i), *kind);
        assert_eq!(kind.index(), i);
    }
    assert_eq!(PieceType::new(6), PieceType::King);
    assert_eq!(PieceType::new(1000), PieceType::King);
    assert_eq!(PieceType::NUM, 6);
}

#[test]
fn pieces_are_kind_and_color() {
    assert_eq!(Piece::NUM, 12);
    let mut n = 0;
    for kind in KINDS {
        for color in [Color::White, Color::Black] {
            let piece = Piece::new(color, kind);
            assert_eq!(piece, Piece(n));
            assert_eq!(piece, Piece::from_index(n as usize));
            assert_eq!(piece.color(), color);
            assert_eq!(piece.piece_type(), kind);
            n += 1;
        }
    }
}

#[test]
fn squares_have_files() {
    assert_eq!(Square::new(0).file(), 0);
    assert_eq!(Square::new(28).file(), 4);
    assert_eq!(Square::new(63).file(), 7);
    assert!(!Square::new(3).is_kingside());
    assert!(Square::new(4).is_kingside());
    assert!(!Square::new(59).is_kingside());
}

#[test]
fn squares_turn_for_black() {
    assert_eq!(Square(4).relative_to(Color::White), Square(4));
    assert_eq!(Square(4).relative_to(Color::Black), Square(60));
    assert_eq!(Square(63).relative_to(Color::Black), Square(7));
    for s in 0..64 {
        let q = Square(s).relative_to(Color::Black).relative_to(Color::Black);
        assert_eq!(q, Square(s));
    }
}

#[test]
fn sets_count_their_squares() {
    assert_eq!(Bitboard(0).popcount(), 0);
    assert_eq!(Bitboard(1).popcount(), 1);
    assert_eq!(Bitboard(0x8000_0000_0000_0001).popcount(), 2);
    assert_eq!(Bitboard(0x00FF_0000_0000_FF00).popcount(), 16);
    assert_eq!(Bitboard(u64::MAX).popcount(), 64);
}

#[test]
fn sets_give_out_squares_in_order() {
    let mut set = Bitboard(0x8000_0000_1000_0041);
    assert_eq!(set.next(), Some(Square(0)));
    assert_eq!(set, Bitboard(0x8000_0000_1000_0040));
    assert_eq!(set.next(), Some(Square(6)));
    assert_eq!(set.next(), Some(Square(28)));
    assert_eq!(set.next(), Some(Square(63)));
    assert_eq!(set, Bitboard(0));
    assert_eq!(set.next(), None);
    assert_eq!(set.next(), None);
}

#[test]
fn sets_intersect() {
    assert_eq!(Bitboard(0xF0F0) & Bitboard(0xFF00), Bitboard(0xF000));
}
