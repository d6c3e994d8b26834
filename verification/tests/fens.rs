use std::str::FromStr;

use ares_features::corpus::{
    compare_entries, compare_entry, corpus_features, fen_features, fen_position, parse_corpus,
    Agreement, Entry,
};
use ares_features::features::Lookup;
use ares_features::fen::{black_to_move, check_board, check_entry, make_entry};
use ares_features::inputs::{AresThreats, GameResult};
use ares_features::premapped::{read_records, write_records, AresPremapped};
use ares_features::roundtrip::{corpus_records, count_mismatches, fen_record, have_same_pairs};
use bulletformat::ChessBoard;

const START: &str = "rnbqkbnr/pppppppp/8/8/8/8/PPPPPPPP/RNBQKBNR w KQkq - 0 1";
const ENDGAME: &str = "8/2p5/3p4/KP5r/1R3p1k/8/4P1P1/8 b - - 0 1";
const DENSE: &str = "3qnRk1/2q1QnqN/3qnrnr/2qNQNQ1/2NqNQNQ/2q1Rnr1/3b1Q2/2K5 w - - 0 1";

fn chars(s: &str) -> Vec<char> {
    s.chars().collect()
}

fn string(v: &Vec<char>) -> String {
    v.iter().collect()
}

#[test]
fn entries_of_fens() {
    assert_eq!(string(&make_entry(&chars("x b"))), "x b | 0 | 0.5");
    assert_eq!(string(&make_entry(&chars(""))), " | 0 | 0.5");
}

#[test]
fn fens_are_packed() {
    for fen in [START, ENDGAME, DENSE] {
        let pos = fen_position(&chars(fen)).unwrap();
        assert_eq!(pos.board, ChessBoard::from_str(&format!("{fen} | 0 | 0.5")).unwrap());
        assert_eq!(pos.stm_is_black, fen == ENDGAME);
        assert_eq!(pos.score(), 0);
        assert_eq!(pos.result(), GameResult::Draw);
        assert!(pos.has_both_kings());
    }
}

#[test]
fn bad_fens_are_refused() {
    let bad = [
        "",
        "8/8/8/8/8/8/8/8",
        "pppppppp/pppppppp/pppppppp/pppppppp/p7/8/8/8 w - - 0 1",
        "K7/8/8/8/8/8/8/8/8 w - - 0 1",
        "8/8/8/8/8/8/8/8/8 b - - 0 1",
        "8K/8/8/8/8/8/8/8 w - - 0 1",
        "8/8 w | x | 0.5",
        "8/8 b | -32768 | 0.5",
    ];
    for fen in bad {
        assert!(fen_position(&chars(fen)).is_none(), "{fen}");
    }
}

#[test]
fn odd_fens_that_stay_on_the_board_are_read() {
    // Rows of other lengths than eight, rows above the board without pieces, and bars in the text.
    let odd = ["8/8/8/8/8/8/8/8K w - - 0 1", "8/8/8/8/8/8/8/8/8/K7 w - - 0 1", "K w", "8/8 w | 7 | 1.0"];
    for fen in odd {
        let pos = fen_position(&chars(fen)).unwrap();
        assert_eq!(pos.board, ChessBoard::from_str(&format!("{fen} | 0 | 0.5")).unwrap());
    }
    assert_eq!(fen_position(&chars("8/8 w | 7 | 1.0")).unwrap().score(), 7);
}

#[test]
fn boards_stay_within_their_squares() {
    assert!(check_board(&chars("8/8/8/8/8/8/8/8"), false));
    assert!(check_board(&chars("7K/8/8/8/8/8/8/8"), true));
    assert!(!check_board(&chars("71K/8/8/8/8/8/8/8"), true));
    assert!(!check_board(&chars("71K/8/8/8/8/8/8/8"), false));
    assert!(check_board(&chars("8/71K/8/8/8/8/8/8"), false));
    assert!(check_board(&chars("88/8/8/8/8/8/8/8"), false));
    assert!(!check_board(&chars("8/8/8/8/8/8/8/8/8"), true));
    assert!(check_board(&chars(""), true));
    assert!(!check_board(&chars("88888888888K"), false));
}

#[test]
fn scores_that_cannot_be_turned_are_out_of_range() {
    assert!(check_entry(&chars("8 b | -32767 | 0.5")));
    assert!(!check_entry(&chars("8 b | -32768 | 0.5")));
    assert!(!check_entry(&chars("8 b |-0032768| 0.5")));
    assert!(check_entry(&chars("8 w | -32768 | 0.5")));
    assert!(check_entry(&chars("8 b | -+32768 | 0.5")));
    assert!(check_entry(&chars("8 b | 32768 | 0.5")));
    assert!(check_entry(&chars("8 b")));
    assert!(black_to_move(&chars("8 b")));
}

#[test]
fn features_of_fens() {
    let lookup = Lookup::new();
    let entry = fen_features(&lookup, &chars(ENDGAME)).unwrap();
    assert_eq!(string(&entry.fen), ENDGAME);
    let pos = fen_position(&chars(ENDGAME)).unwrap();
    assert_eq!(entry.pov0, AresThreats::features(&lookup, &pos, true));
    assert_eq!(entry.pov1, AresThreats::features(&lookup, &pos, false));
    assert_eq!(entry.pov0[0], 6924);
    assert_eq!(entry.pov1[0], 6925);
    assert!(fen_features(&lookup, &chars("x")).is_none());
}

#[test]
fn features_of_a_corpus() {
    let lookup = Lookup::new();
    let text = format!("FEN {START}\nPOV 0 count 0 : []\nFEN {ENDGAME}\n");
    let entries = corpus_features(&lookup, &chars(&text)).unwrap();
    assert_eq!(entries.len(), 2);
    assert_eq!(string(&entries[1].fen), ENDGAME);
    assert_eq!((entries[0].pov0.len(), entries[1].pov0.len()), (68, 17));
    assert!(corpus_features(&lookup, &chars("FEN x\n")).is_none());
    assert_eq!(corpus_features(&lookup, &chars("")).unwrap().len(), 0);
}

#[test]
fn entries_agree_with_their_own_features() {
    let lookup = Lookup::new();
    let mut text = String::new();
    for fen in [START, ENDGAME, DENSE] {
        let entry = fen_features(&lookup, &chars(fen)).unwrap();
        assert_eq!(compare_entry(&lookup, &entry), Some((true, true)));
        text += &format!("FEN {fen}\n");
        text += &format!("POV 0 count {} : {:?}\n", entry.pov0.len(), entry.pov0);
        text += &format!("POV 1 count {} : {:?}\n", entry.pov1.len(), entry.pov1);
    }
    let entries = parse_corpus(&chars(&text)).unwrap();
    let verdicts = compare_entries(&lookup, &entries).unwrap();
    assert_eq!(verdicts, vec![(true, true); 3]);
    let found = Agreement::of(&verdicts);
    assert_eq!(found, Agreement { positions: 3, agreed: 3, stm_agreed: 3, ntm_agreed: 3 });
    assert!(found.is_full());
}

#[test]
fn disagreements_are_counted() {
    let lookup = Lookup::new();
    let mut entry = fen_features(&lookup, &chars(ENDGAME)).unwrap();
    entry.pov1.push(3);
    assert_eq!(compare_entry(&lookup, &entry), Some((false, true)));
    let bad = Entry { fen: chars("x"), pov0: vec![], pov1: vec![] };
    assert_eq!(compare_entry(&lookup, &bad), None);
    assert!(compare_entries(&lookup, &vec![entry, bad]).is_none());
    let found = Agreement::of(&vec![(true, true), (false, true), (true, false), (true, false)]);
    assert_eq!(found, Agreement { positions: 4, agreed: 1, stm_agreed: 3, ntm_agreed: 2 });
    assert!(!found.is_full());
    assert!(Agreement::of(&vec![]).is_full());
}

#[test]
fn pairs_in_any_order() {
    assert!(have_same_pairs(&vec![(1, 2), (3, 4), (1, 2)], &vec![(1, 2), (1, 2), (3, 4)]));
    assert!(!have_same_pairs(&vec![(1, 2), (3, 4), (1, 2)], &vec![(1, 2), (3, 4), (3, 4)]));
    assert!(!have_same_pairs(&vec![(1, 2)], &vec![(1, 2), (3, 4)]));
    assert!(!have_same_pairs(&vec![(1, 2)], &vec![(2, 1)]));
    assert!(have_same_pairs(&vec![], &vec![]));
}

#[test]
fn records_of_fens() {
    let lookup = Lookup::new();
    let (pairs, record) = fen_record(&lookup, &chars(ENDGAME)).unwrap();
    assert_eq!(pairs.len(), 17);
    assert_eq!((record.n, record.score, record.result, record.bucket), (17, 0, 1, 1));
    assert_eq!(pairs[0], (6925, 6924));
    assert!(fen_record(&lookup, &chars("x")).is_none());
}

#[test]
fn records_replay_after_a_roundtrip() {
    let lookup = Lookup::new();
    let text = format!("FEN {START}\nFEN {ENDGAME}\n");
    let (direct, records) = corpus_records(&lookup, &chars(&text)).unwrap();
    let back = read_records(&write_records(&records)).unwrap();
    assert_eq!(count_mismatches(&direct, &back), Some(0));
    // A position with more features than a record has room for does not come back whole.
    let text = format!("FEN {START}\nFEN {DENSE}\nFEN {ENDGAME}\n");
    let (direct, records) = corpus_records(&lookup, &chars(&text)).unwrap();
    let back = read_records(&write_records(&records)).unwrap();
    assert_eq!(count_mismatches(&direct, &back), Some(1));
    assert!(corpus_records(&lookup, &chars("FEN x\n")).is_none());
}

#[test]
fn broken_records_are_told() {
    let record = AresPremapped::default();
    assert_eq!(count_mismatches(&vec![vec![]], &vec![record]), Some(0));
    assert_eq!(count_mismatches(&vec![vec![(1, 2)]], &vec![record]), Some(1));
    assert_eq!(count_mismatches(&vec![], &vec![record]), None);
    let broken = AresPremapped { n: 161, ..record };
    assert_eq!(count_mismatches(&vec![vec![]], &vec![broken]), None);
}
