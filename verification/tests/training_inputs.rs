use std::str::FromStr;

use ares_features::features::Lookup;
use ares_features::inputs::{
    zip_features, AresChessBoard, AresOutputBuckets, AresThreats, GameResult, OUTPUT_BUCKETS_LAYOUT,
};
use bulletformat::ChessBoard;

fn packed(text: &str) -> AresChessBoard {
    AresChessBoard { board: ChessBoard::from_str(text).unwrap(), stm_is_black: false }
}

#[test]
fn describes_the_inputs() {
    assert_eq!(AresThreats.num_inputs(), 74544);
    assert_eq!(AresThreats.max_active(), 256);
    assert_eq!(AresThreats.shorthand(), "74544");
    assert_eq!(
        AresThreats.description(),
        "Ares combined PST (king-bucketed) + threat features, engine-parity"
    );
}

#[test]
fn scores_and_results_are_those_of_the_side_to_move() {
    let white = packed("4k3/8/8/8/8/8/8/4K2R w K - 0 1 | 512 | 1.0");
    assert_eq!(white.score(), 512);
    assert_eq!(white.result(), GameResult::Win);
    let black = packed("4k3/8/8/8/8/8/8/4K2R b K - 0 1 | 512 | 1.0");
    assert_eq!(black.score(), -512);
    assert_eq!(black.result(), GameResult::Loss);
    let draw = packed("4k3/8/8/8/8/8/8/4K2R b K - 0 1 | 0 | 0.5");
    assert_eq!(draw.score(), 0);
    assert_eq!(draw.result(), GameResult::Draw);
    assert!(white.has_result() && black.has_result() && draw.has_result());
}

#[test]
fn results_have_numbers() {
    assert_eq!(GameResult::Loss.index(), 0);
    assert_eq!(GameResult::Draw.index(), 1);
    assert_eq!(GameResult::Win.index(), 2);
    for i in 0..3 {
        assert_eq!(GameResult::from_index(i).index() as usize, i);
    }
}

#[test]
fn unreadable_positions_are_told_apart() {
    let mut board = ChessBoard { occ: 0x3, result: 3, ..ChessBoard::default() };
    board.pcs[0] = 0xd5;
    let pos = AresChessBoard { board, stm_is_black: false };
    assert!(pos.is_valid());
    assert!(!pos.has_result());
    for code in [6u8, 7, 14, 15] {
        board.pcs[0] = 0x50 | code;
        assert!(!AresChessBoard { board, stm_is_black: true }.is_valid());
        board.pcs[0] = 0x05 | code << 4;
        assert!(!AresChessBoard { board, stm_is_black: false }.is_valid());
    }
    let crowded = ChessBoard { occ: 0x1_FFFF_FFFF, ..ChessBoard::default() };
    assert!(!AresChessBoard { board: crowded, stm_is_black: false }.is_valid());
    let full = ChessBoard { occ: 0xFFFF_FFFF, ..ChessBoard::default() };
    assert!(AresChessBoard { board: full, stm_is_black: false }.is_valid());
}

#[test]
fn positions_with_both_kings() {
    let both = packed("4k3/8/8/8/8/8/8/4K2R b K - 0 1 | 0 | 0.5");
    assert!(both.is_valid() && both.has_both_kings());
    for fen in ["4k3/8/8/8/8/8/8/8", "8/8/8/8/8/8/8/4K3", "4k3/8/8/8/8/8/8/4K2K", "k3k3/8/8/8/8/8/8/K7"] {
        let pos = packed(&format!("{fen} w - - 0 1 | 0 | 0.5"));
        assert!(pos.is_valid() && !pos.has_both_kings());
    }
}

#[test]
fn lists_are_paired_entry_by_entry() {
    assert_eq!(zip_features(&vec![1, 2, 3], &vec![4, 5, 6]), vec![(1, 4), (2, 5), (3, 6)]);
    assert_eq!(zip_features(&vec![1, 2, 3], &vec![4]), vec![(1, 4)]);
    assert_eq!(zip_features(&vec![], &vec![4]), vec![]);
}

#[test]
fn features_come_in_ascending_order() {
    let lookup = Lookup::new();
    let pos = packed("r3k2r/p1ppqpb1/bn2pnp1/3PN3/1p2P3/2N2Q1p/PPPBBPPP/R3K2R w KQkq - 0 1 | 0 | 0.5");
    let pairs = AresThreats::map_pairs(&lookup, &pos);
    assert_eq!(pairs.len(), 81);
    assert!(pairs.windows(2).all(|w| w[0].0 < w[1].0 && w[0].1 < w[1].1));
    let stm: Vec<usize> = pairs.iter().map(|p| p.0).collect();
    let ntm: Vec<usize> = pairs.iter().map(|p| p.1).collect();
    assert_eq!(AresThreats::features(&lookup, &pos, true), stm);
    assert_eq!(AresThreats::features(&lookup, &pos, false), ntm);
}

#[test]
fn unreadable_positions_have_no_pairs() {
    let lookup = Lookup::new();
    let pos = packed("4k3/8/8/8/8/8/8/4K3 w - - 0 1 | 0 | 0.5");
    assert_eq!(AresThreats::checked_pairs(&lookup, &pos), Some(vec![(2627, 2627), (3067, 3067)]));
    let crowded = ChessBoard { occ: u64::MAX, ..ChessBoard::default() };
    let pos = AresChessBoard { board: crowded, stm_is_black: false };
    assert_eq!(AresThreats::checked_pairs(&lookup, &pos), None);
}

#[test]
fn buckets_differ_from_equal_shares() {
    let differ = (2..=32).filter(|n| OUTPUT_BUCKETS_LAYOUT[*n] as usize != (n - 2) / 4).count();
    assert_eq!(differ, 13);
}

#[test]
fn buckets_by_the_number_of_pieces() {
    assert_eq!(AresOutputBuckets::BUCKETS, 8);
    let expected = [
        0, 0, 0, 0, 0, 0, 0, 0, 0, 1, 1, 1, 1, 2, 2, 2, 2, 3, 3, 3, 4, 4, 4, 5, 5, 5, 6, 6, 6, 7, 7, 7,
        7,
    ];
    assert_eq!(OUTPUT_BUCKETS_LAYOUT, expected);
    for (n, bucket) in expected.iter().enumerate() {
        let occ = ((1u128 << (2 * n)) / 3) as u64;
        assert_eq!(occ.count_ones() as usize, n);
        let board = ChessBoard { occ, ..ChessBoard::default() };
        let pos = AresChessBoard { board, stm_is_black: false };
        assert_eq!(AresOutputBuckets.bucket(&pos), *bucket);
    }
}
