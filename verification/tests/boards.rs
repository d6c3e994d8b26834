use std::str::FromStr;

use ares_features::board::AresBoard;
use ares_features::types::{Color, Piece, PieceType, Square};
use bulletformat::ChessBoard;

#[test]
fn boards_from_sets() {
    let mut sets = [0u64; 12];
    sets[0] = 0xFF00;
    sets[9] = 1 << 59;
    sets[10] = 1 << 4;
    sets[11] = 1 << 60;
    let board = AresBoard::from_absolute(sets);
    assert_eq!(board.occ(), 0xFF00 | 1 << 59 | 1 << 4 | 1 << 60);
    assert_eq!(board.king_square(Color::White), Square(4));
    assert_eq!(board.king_square(Color::Black), Square(60));
    assert_eq!(board.piece(Square(8)), Piece::new(Color::White, PieceType::Pawn));
    assert_eq!(board.piece(Square(59)), Piece::new(Color::Black, PieceType::Queen));
    assert_eq!(board.clone().occ(), board.occ());
}

#[test]
fn later_sets_win_on_a_shared_square() {
    let mut sets = [0u64; 12];
    sets[3] = 1 << 20;
    sets[6] = 1 << 20;
    let board = AresBoard::from_absolute(sets);
    assert_eq!(board.occ(), 1 << 20);
    assert_eq!(board.piece(Square(20)), Piece::new(Color::White, PieceType::Rook));
}

#[test]
fn the_highest_of_several_kings_counts() {
    let mut sets = [0u64; 12];
    sets[10] = 1 << 4 | 1 << 33;
    let board = AresBoard::from_absolute(sets);
    assert_eq!(board.king_square(Color::White), Square(33));
    assert_eq!(board.king_square(Color::Black), Square(0));
}

#[test]
fn empty_board() {
    let board = AresBoard::from_absolute([0; 12]);
    assert_eq!(board.occ(), 0);
    assert_eq!(board.king_square(Color::White), Square(0));
    assert_eq!(board.piece(Square(10)), Piece(0));
}

#[test]
fn boards_from_lists_of_pieces() {
    let pieces = vec![(5u8, 4u8), (0, 12), (8, 52), (13, 60)];
    let white = AresBoard::from_pieces(&pieces, false);
    assert_eq!(white.king_square(Color::White), Square(4));
    assert_eq!(white.king_square(Color::Black), Square(60));
    assert_eq!(white.piece(Square(12)), Piece::new(Color::White, PieceType::Pawn));
    let black = AresBoard::from_pieces(&pieces, true);
    assert_eq!(black.king_square(Color::Black), Square(60));
    assert_eq!(black.king_square(Color::White), Square(4));
    assert_eq!(black.piece(Square(52)), Piece::new(Color::Black, PieceType::Pawn));
}

#[test]
fn packed_boards_are_turned_back() {
    let packed = ChessBoard::from_str("8/2p5/3p4/KP5r/1R3p1k/8/4P1P1/8 b - - 0 1 | 12 | 1.0").unwrap();
    let board = AresBoard::from_bullet(&packed, true);
    assert_eq!(board.occ(), 0x0004_0883_A200_5000);
    assert_eq!(board.king_square(Color::White), Square(32));
    assert_eq!(board.king_square(Color::Black), Square(31));
    assert_eq!(board.piece(Square(25)), Piece::new(Color::White, PieceType::Rook));
    assert_eq!(board.piece(Square(39)), Piece::new(Color::Black, PieceType::Rook));
    let relative = AresBoard::from_bullet(&packed, false);
    assert_eq!(relative.king_square(Color::White), Square(31 ^ 56));
    assert_eq!(relative.king_square(Color::Black), Square(32 ^ 56));
    assert_eq!(relative.piece(Square(39 ^ 56)), Piece::new(Color::White, PieceType::Rook));
}
