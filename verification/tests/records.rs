use std::str::FromStr;

use ares_features::features::Lookup;
use ares_features::inputs::{AresChessBoard, AresThreats, GameResult};
use ares_features::premapped::{
    checked_premap, premap, read_records, store_pairs, write_records, AresPreOutputBuckets,
    AresPremapped, AresThreatsPre, NNZ, RECORD_SIZE,
};
use bulletformat::ChessBoard;

const DENSE: &str = "3qnRk1/2q1QnqN/3qnrnr/2qNQNQ1/2NqNQNQ/2q1Rnr1/3b1Q2/2K5 w - - 0 1 | -7 | 0.0";
const START: &str = "rnbqkbnr/pppppppp/8/8/8/8/PPPPPPPP/RNBQKBNR w KQkq - 0 1 | 33 | 1.0";

#[test]
fn describes_the_premapped_inputs() {
    assert_eq!(AresThreatsPre.num_inputs(), 74544);
    assert_eq!(AresThreatsPre.max_active(), 256);
    assert!(AresThreatsPre.max_active() >= NNZ);
    assert_eq!(AresThreatsPre.shorthand(), "74544");
    assert_eq!(
        AresThreatsPre.description(),
        "Ares combined PST + threat features, premapped (precomputed index pairs)"
    );
    assert_eq!(AresPreOutputBuckets::BUCKETS, 8);
}

#[test]
fn an_empty_record() {
    let rec = AresPremapped::default();
    assert_eq!(rec.stm, [0; 160]);
    assert_eq!(rec.ntm, [0; 160]);
    assert_eq!((rec.n, rec.score(), rec.bucket), (0, 0, 0));
    assert_eq!(rec.result(), GameResult::Draw);
    assert_eq!(rec._pad, [0; 10]);
    assert_eq!(AresThreatsPre.map_features(&rec), vec![]);
}

#[test]
fn labels_are_read_from_the_record() {
    let mut rec = AresPremapped { score: -321, bucket: 6, ..AresPremapped::default() };
    assert_eq!(rec.score(), -321);
    assert_eq!(AresPreOutputBuckets.bucket(&rec), 6);
    for (n, result) in [GameResult::Loss, GameResult::Draw, GameResult::Win].iter().enumerate() {
        rec.result = n as u8;
        assert_eq!(rec.result(), *result);
    }
}

#[test]
fn a_record_replays_its_pairs() {
    let mut rec = AresPremapped { n: 2, ..AresPremapped::default() };
    rec.stm[0] = 74543;
    rec.ntm[0] = 5;
    rec.stm[1] = 70000;
    rec.ntm[1] = 66000;
    rec.stm[2] = 9;
    assert_eq!(AresThreatsPre.map_features(&rec), vec![(74543, 5), (70000, 66000)]);
}

#[test]
fn records_of_positions() {
    let lookup = Lookup::new();
    let board = ChessBoard::from_str(START).unwrap();
    let (rec, clamped) = premap(&lookup, &board);
    assert!(!clamped);
    assert_eq!(rec.n, 68);
    assert_eq!(rec.score, 33);
    assert_eq!(rec.result, 2);
    assert_eq!(rec.bucket, 7);
    assert_eq!(rec.stm[0], 2312);
    assert_eq!(rec.stm[67], 74104);
    assert_eq!(rec.stm[68], 0);
    let pos = AresChessBoard { board, stm_is_black: false };
    assert_eq!(AresThreatsPre.map_features(&rec), AresThreats::map_pairs(&lookup, &pos));
}

#[test]
fn crowded_positions_are_clamped() {
    let lookup = Lookup::new();
    let board = ChessBoard::from_str(DENSE).unwrap();
    let (rec, clamped) = premap(&lookup, &board);
    assert!(clamped);
    assert_eq!(rec.n as usize, NNZ);
    assert_eq!(rec.score, -7);
    assert_eq!(rec.result, 0);
    let pos = AresChessBoard { board, stm_is_black: false };
    let pairs = AresThreats::map_pairs(&lookup, &pos);
    assert_eq!(pairs.len(), 172);
    assert_eq!(pairs[158..162], [(67213, 65976), (67425, 65977), (69526, 65982), (69528, 66096)]);
    assert_eq!(AresThreatsPre.map_features(&rec), pairs[..160].to_vec());
}

#[test]
fn unreadable_positions_have_no_record() {
    let lookup = Lookup::new();
    let board = ChessBoard::from_str(START).unwrap();
    let (rec, clamped) = checked_premap(&lookup, &board).unwrap();
    assert_eq!((rec.n, clamped), (68, false));
    let unknown = ChessBoard { result: 3, ..board };
    assert!(checked_premap(&lookup, &unknown).is_none());
    let mut broken = board;
    broken.pcs[0] = 0x07;
    assert!(checked_premap(&lookup, &broken).is_none());
}

#[test]
fn storing_pairs_keeps_the_rest() {
    let mut rec = AresPremapped { score: 5, result: 2, bucket: 3, ..AresPremapped::default() };
    rec.stm[1] = 77;
    assert!(!store_pairs(&mut rec, &vec![(1, 2)]));
    assert_eq!((rec.n, rec.stm[0], rec.ntm[0], rec.stm[1]), (1, 1, 2, 77));
    assert_eq!((rec.score, rec.result, rec.bucket), (5, 2, 3));
    let full: Vec<(usize, usize)> = (0..160).map(|i| (i, 2 * i)).collect();
    assert!(!store_pairs(&mut rec, &full));
    assert_eq!((rec.n, rec.stm[159], rec.ntm[159]), (160, 159, 318));
    let more: Vec<(usize, usize)> = (0..161).map(|i| (i, 3 * i)).collect();
    assert!(store_pairs(&mut rec, &more));
    assert_eq!((rec.n, rec.ntm[159]), (160, 477));
}

#[test]
fn bytes_of_a_record() {
    let mut rec = AresPremapped { n: 0x0102, score: -2, result: 2, bucket: 7, ..AresPremapped::default() };
    rec.stm[0] = 0x0403_0201;
    rec.ntm[159] = 74543;
    rec._pad[9] = 0xEE;
    let bytes = rec.to_bytes();
    assert_eq!(bytes.len(), RECORD_SIZE);
    assert_eq!(RECORD_SIZE, 1296);
    assert_eq!(bytes[0..5], [1, 2, 3, 4, 0]);
    assert_eq!(bytes[1276..1280], [0x2F, 0x23, 0x01, 0x00]);
    assert_eq!(bytes[1280..1287], [0x02, 0x01, 0xFE, 0xFF, 2, 7, 0]);
    assert_eq!(bytes[1295], 0xEE);
}

#[test]
fn records_survive_writing_and_reading() {
    let lookup = Lookup::new();
    for text in [START, DENSE] {
        let board = ChessBoard::from_str(text).unwrap();
        let (rec, _) = premap(&lookup, &board);
        let back = AresPremapped::from_bytes(&rec.to_bytes()).unwrap();
        assert_eq!(back.stm, rec.stm);
        assert_eq!(back.ntm, rec.ntm);
        assert_eq!(back.n, rec.n);
        assert_eq!(back.score, rec.score);
        assert_eq!(back.result, rec.result);
        assert_eq!(back.bucket, rec.bucket);
        assert_eq!(back._pad, rec._pad);
        assert_eq!(AresThreatsPre.map_features(&back), AresThreatsPre.map_features(&rec));
    }
}

#[test]
fn any_bytes_of_the_right_number_are_a_record() {
    let bytes: Vec<u8> = (0..1296).map(|i| (i * 7 + i / 256) as u8).collect();
    let rec = AresPremapped::from_bytes(&bytes).unwrap();
    assert_eq!(rec.to_bytes(), bytes);
    assert!(AresPremapped::from_bytes(&bytes[..1295]).is_none());
    assert!(AresPremapped::from_bytes(&[]).is_none());
    let longer = vec![0u8; 1297];
    assert!(AresPremapped::from_bytes(&longer).is_none());
}

#[test]
fn files_of_records() {
    let lookup = Lookup::new();
    let boards = [ChessBoard::from_str(START).unwrap(), ChessBoard::from_str(DENSE).unwrap()];
    let records: Vec<AresPremapped> = boards.iter().map(|b| premap(&lookup, b).0).collect();
    let bytes = write_records(&records);
    assert_eq!(bytes.len(), 2 * RECORD_SIZE);
    assert_eq!(bytes[RECORD_SIZE..], records[1].to_bytes()[..]);
    let back = read_records(&bytes).unwrap();
    assert_eq!(back.len(), 2);
    assert_eq!(back[0].to_bytes(), records[0].to_bytes());
    assert_eq!(back[1].to_bytes(), records[1].to_bytes());
    assert_eq!(read_records(&[]).unwrap().len(), 0);
    assert_eq!(write_records(&vec![]).len(), 0);
    assert!(read_records(&bytes[1..]).is_none());
    assert!(read_records(&bytes[..RECORD_SIZE + 1]).is_none());
}
