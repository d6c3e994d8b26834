use std::str::FromStr;

use ares_features::board::AresBoard;
use ares_features::features::{features_for_pov, pst_index, Lookup, NUM_INPUTS, PST_SIZE, THREAT_BASE};
use ares_features::inputs::{AresChessBoard, AresThreats};
use ares_features::types::{Color, PieceType, Square};
use bulletformat::ChessBoard;

fn position(fen: &str) -> AresChessBoard {
    let board = ChessBoard::from_str(&format!("{fen} | 0 | 0.5")).unwrap();
    let stm_is_black = fen.split_whitespace().nth(1) == Some("b");
    AresChessBoard { board, stm_is_black }
}

/// Checks the features of a position, for White and for Black, and those of its pairs.
fn check(fen: &str, white: Vec<usize>, black: Vec<usize>) {
    let lookup = Lookup::new();
    let pos = position(fen);
    assert!(pos.is_valid());
    assert_eq!(AresThreats::features(&lookup, &pos, true), white);
    assert_eq!(AresThreats::features(&lookup, &pos, false), black);
    let (mover, other) = if pos.stm_is_black { (&black, &white) } else { (&white, &black) };
    let pairs: Vec<(usize, usize)> = mover.iter().copied().zip(other.iter().copied()).collect();
    assert_eq!(AresThreats::map_pairs(&lookup, &pos), pairs);
    assert_eq!(AresThreats.map_features(&lookup, &pos), pairs);
    // Taken as it is packed, the position has the same features for the side to move.
    let relative = AresChessBoard { board: pos.board, stm_is_black: false };
    assert_eq!(AresThreats::map_pairs(&lookup, &relative), pairs);
}

#[test]
fn sizes_of_the_feature_space() {
    assert_eq!(PST_SIZE, 7680);
    assert_eq!(THREAT_BASE, 7680);
    assert_eq!(NUM_INPUTS, 74544);
}

#[test]
fn piece_square_numbers() {
    let (w, b) = (Color::White, Color::Black);
    assert_eq!(pst_index(w, PieceType::Pawn, Square(8), Square(4), w), 2319);
    assert_eq!(pst_index(b, PieceType::King, Square(60), Square(60), w), 7675);
    assert_eq!(pst_index(w, PieceType::Queen, Square(3), Square(6), b), 7612);
    assert_eq!(pst_index(b, PieceType::Knight, Square(57), Square(62), b), 838);
    assert_eq!(pst_index(w, PieceType::Pawn, Square(0), Square(0), w), 0);
    assert_eq!(pst_index(b, PieceType::King, Square(63), Square(35), w), 7679);
}

#[test]
fn features_of_start() {
    let white = vec![
        2312, 2313, 2314, 2315, 2316, 2317, 2318, 2319, 2369, 2374, 2434, 2437, 2496, 2503,
        2564, 2627, 2736, 2737, 2738, 2739, 2740, 2741, 2742, 2743, 2809, 2814, 2874, 2877,
        2936, 2943, 3004, 3067, 8186, 8205, 11558, 11559, 11579, 11580, 16031, 16129, 16920,
        17024, 23283, 23284, 23285, 26192, 37767, 37768, 37769, 38605, 43610, 43629, 47739,
        47740, 47760, 47761, 53830, 53928, 54727, 54831, 65287, 65288, 65289, 68206, 73261,
        73262, 73263, 74104,
    ];
    let black = vec![
        2312, 2313, 2314, 2315, 2316, 2317, 2318, 2319, 2369, 2374, 2434, 2437, 2496, 2503,
        2564, 2627, 2736, 2737, 2738, 2739, 2740, 2741, 2742, 2743, 2809, 2814, 2874, 2877,
        2936, 2943, 3004, 3067, 8186, 8205, 11558, 11559, 11579, 11580, 16031, 16129, 16920,
        17024, 23283, 23284, 23285, 26192, 37767, 37768, 37769, 38605, 43610, 43629, 47739,
        47740, 47760, 47761, 53830, 53928, 54727, 54831, 65287, 65288, 65289, 68206, 73261,
        73262, 73263, 74104,
    ];
    check(
        "rnbqkbnr/pppppppp/8/8/8/8/PPPPPPPP/RNBQKBNR w KQkq - 0 1",
        white,
        black,
    );
}

#[test]
fn features_of_middle_game() {
    let white = vec![
        2312, 2313, 2314, 2317, 2318, 2319, 2331, 2340, 2389, 2403, 2443, 2444, 2496, 2503,
        2578, 2627, 2704, 2718, 2729, 2731, 2738, 2740, 2741, 2743, 2794, 2798, 2863, 2865,
        2936, 2943, 2995, 3067, 7714, 7775, 8285, 8286, 8288, 8956, 9714, 10054, 10056, 10057,
        12197, 16031, 16129, 23587, 23588, 23599, 25050, 26501, 30870, 32339, 37767, 38608,
        38609, 41126, 41174, 41235, 41437, 41438, 41441, 41528, 41531, 41847, 41849, 41880,
        43531, 43561, 44571, 46526, 48225, 49346, 53826, 53928, 65085, 65090, 65094, 65095,
        66545, 73261, 73263,
    ];
    let black = vec![
        2314, 2316, 2317, 2319, 2321, 2323, 2342, 2344, 2386, 2390, 2441, 2455, 2496, 2503,
        2571, 2627, 2716, 2723, 2736, 2737, 2738, 2741, 2742, 2743, 2779, 2797, 2867, 2868,
        2936, 2943, 2986, 3067, 7683, 7684, 7687, 7774, 7777, 8069, 8261, 8292, 9299, 9943,
        9945, 9973, 12170, 13287, 16035, 16129, 23432, 23433, 23438, 23445, 24893, 37767, 37769,
        41147, 41183, 41412, 41529, 41750, 41751, 41752, 43550, 43552, 43555, 44226, 44780,
        46557, 48252, 53830, 53928, 57600, 59048, 64879, 64887, 64888, 66340, 67801, 73261,
        74102, 74103,
    ];
    check(
        "r3k2r/p1ppqpb1/bn2pnp1/3PN3/1p2P3/2N2Q1p/PPPBBPPP/R3K2R w KQkq - 0 1",
        white,
        black,
    );
}

#[test]
fn features_of_endgame() {
    let white = vec![
        6924, 6926, 6945, 7129, 7264, 7325, 7339, 7346, 7527, 7647, 16384, 19965, 37964, 39223,
        41438, 50007, 74333,
    ];
    let black = vec![
        6925, 6932, 6946, 7128, 7264, 7326, 7345, 7347, 7526, 7647, 7689, 19952, 39222, 49994,
        53575, 73071, 74332,
    ];
    check(
        "8/2p5/3p4/KP5r/1R3p1k/8/4P1P1/8 b - - 0 1",
        white,
        black,
    );
}

#[test]
fn features_of_bare_kings() {
    let white = vec![
        2627, 3067,
    ];
    let black = vec![
        2627, 3067,
    ];
    check(
        "4k3/8/8/8/8/8/8/4K3 b - - 0 1",
        white,
        black,
    );
}

#[test]
fn features_come_square_by_square() {
    let lookup = Lookup::new();
    let pos = position("8/2p5/3p4/KP5r/1R3p1k/8/4P1P1/8 w - - 0 1");
    let board = AresBoard::from_bullet(&pos.board, false);
    let white = vec![
        6924, 6926, 7129, 19965, 16384, 7325, 7647, 74333, 7264, 39223, 37964, 6945, 7527,
        50007, 7339, 7346, 41438,
    ];
    assert_eq!(features_for_pov(&lookup, &board, Color::White), white);
    let empty = AresBoard::from_absolute([0; 12]);
    assert_eq!(features_for_pov(&lookup, &empty, Color::Black), Vec::<usize>::new());
}

#[test]
fn both_players_have_as_many_features() {
    let lookup = Lookup::new();
    let fens = [
        "rnbqkbnr/pppppppp/8/8/8/8/PPPPPPPP/RNBQKBNR w KQkq - 0 1",
        "r3k2r/p1ppqpb1/bn2pnp1/3PN3/1p2P3/2N2Q1p/PPPBBPPP/R3K2R b KQkq - 0 1",
        "3qnRk1/2q1QnqN/3qnrnr/2qNQNQ1/2NqNQNQ/2q1Rnr1/3b1Q2/2K5 w - - 0 1",
    ];
    for fen in fens {
        let pos = position(fen);
        let white = AresThreats::features(&lookup, &pos, true);
        let black = AresThreats::features(&lookup, &pos, false);
        assert_eq!(white.len(), black.len());
    }
}

#[test]
fn each_piece_has_one_piece_square_feature() {
    let lookup = Lookup::new();
    let pos = position("r3k2r/p1ppqpb1/bn2pnp1/3PN3/1p2P3/2N2Q1p/PPPBBPPP/R3K2R w KQkq - 0 1");
    for white in [true, false] {
        let all = AresThreats::features(&lookup, &pos, white);
        assert_eq!(all.iter().filter(|v| **v < PST_SIZE).count(), 32);
        assert!(all.iter().all(|v| *v < NUM_INPUTS));
    }
}

#[test]
fn features_are_distinct() {
    let lookup = Lookup::new();
    let pos = position("3qnRk1/2q1QnqN/3qnrnr/2qNQNQ1/2NqNQNQ/2q1Rnr1/3b1Q2/2K5 w - - 0 1");
    for white in [true, false] {
        let all = AresThreats::features(&lookup, &pos, white);
        assert_eq!(all.len(), 172);
        assert!(all.windows(2).all(|w| w[0] < w[1]));
    }
}

#[test]
fn pawns_on_the_last_rank_can_share_a_number() {
    let lookup = Lookup::new();
    let pieces = vec![(5u8, 10u8), (13, 25), (3, 49), (8, 56), (8, 58)];
    let board = AresBoard::from_pieces(&pieces, false);
    let mut all = features_for_pov(&lookup, &board, Color::White);
    all.sort();
    assert_eq!(all, vec![4849, 4938, 5048, 5050, 5337, 41364, 41364]);
}

#[test]
fn boards_without_kings_have_features() {
    let lookup = Lookup::new();
    let board = AresBoard::from_pieces(&vec![(2u8, 0u8), (10, 63)], false);
    assert_eq!(features_for_pov(&lookup, &board, Color::White), vec![128, 575, 46649]);
    assert_eq!(features_for_pov(&lookup, &board, Color::Black), vec![7480, 46600, 7047]);
}

#[test]
fn at_most_eight_features_for_each_piece() {
    let lookup = Lookup::new();
    let fens = [
        "3qnRk1/2q1QnqN/3qnrnr/2qNQNQ1/2NqNQNQ/2q1Rnr1/3b1Q2/2K5 w - - 0 1",
        "4k3/8/8/8/8/8/8/4K3 w - - 0 1",
        "k7/8/2QNQ3/2NQN3/2QNQ3/8/8/7K w - - 0 1",
    ];
    for fen in fens {
        let pos = position(fen);
        let pairs = AresThreats::map_pairs(&lookup, &pos);
        assert!(pairs.len() <= 8 * pos.board.occ().count_ones() as usize);
        assert!(pairs.len() <= AresThreats.max_active());
    }
}

#[test]
fn mirroring_the_files_keeps_the_features() {
    let lookup = Lookup::new();
    let pairs = [
        ("r3k2r/p1ppqpb1/bn2pnp1/3PN3/1p2P3/2N2Q1p/PPPBBPPP/R3K2R w - - 0 1",
            "r2k3r/1bpqpp1p/1pnp2nb/3NP3/3P2p1/p1Q2N2/PPPBBPPP/R2K3R w - - 0 1"),
        ("8/2p5/3p4/KP5r/1R3p1k/8/4P1P1/8 w - - 0 1", "8/5p2/4p3/r5PK/k1p3R1/8/1P1P4/8 w - - 0 1"),
    ];
    for (fen, image) in pairs {
        let (p, q) = (position(fen), position(image));
        for white in [true, false] {
            let features = AresThreats::features(&lookup, &p, white);
            assert_eq!(features, AresThreats::features(&lookup, &q, white));
        }
    }
    // Without a king of its own a player takes the first square for the king's.
    let board = AresBoard::from_pieces(&vec![(2u8, 0u8), (10, 63)], false);
    let image = AresBoard::from_pieces(&vec![(2u8, 7u8), (10, 56)], false);
    assert_ne!(
        features_for_pov(&lookup, &board, Color::White),
        features_for_pov(&lookup, &image, Color::White)
    );
}
