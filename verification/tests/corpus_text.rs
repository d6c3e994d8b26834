use std::str::FromStr;

use ares_features::corpus::{
    compare, have_same_members, parse_corpus, parse_fens, parse_list, split_lines,
};
use ares_features::features::Lookup;
use ares_features::fen::black_to_move;
use ares_features::inputs::{AresChessBoard, AresThreats};
use ares_features::text::{
    append, parse_number, part, skip_back, skip_front, split, strip_prefix, take_front, trim,
    CharClass,
};
use bulletformat::ChessBoard;

fn chars(s: &str) -> Vec<char> {
    s.chars().collect()
}

fn string(v: &Vec<char>) -> String {
    v.iter().collect()
}

#[test]
fn classes_of_characters() {
    for c in (0..0x11_0000u32).filter_map(char::from_u32) {
        assert_eq!(CharClass::Space.has_char(c), c.is_whitespace());
        assert_eq!(CharClass::Word.has_char(c), !c.is_whitespace());
    }
    assert!(CharClass::Is('x').has_char('x'));
    assert!(!CharClass::Is('x').has_char('y'));
    assert!(!CharClass::IsNot('x').has_char('x'));
    assert!(CharClass::IsNot('x').has_char('y'));
}

#[test]
fn parts_of_texts() {
    assert_eq!(string(&part(&chars("abcdef"), 2, 4)), "cd");
    assert_eq!(string(&skip_front(&chars("[[1]"), CharClass::Is('['))), "1]");
    assert_eq!(string(&skip_back(&chars("1]]"), CharClass::Is(']'))), "1");
    assert_eq!(string(&take_front(&chars("[[1]"), CharClass::Is('['))), "[[");
    assert_eq!(string(&take_front(&chars("ab c"), CharClass::Word)), "ab");
    let mut s = chars("ab");
    append(&mut s, " cd");
    assert_eq!(string(&s), "ab cd");
    for s in ["", " ", "  ab c\t\n", "abc", "\u{3000}x\u{a0}"] {
        assert_eq!(string(&trim(&chars(s))), s.trim());
    }
}

#[test]
fn prefixes() {
    assert_eq!(strip_prefix(&chars("FEN abc"), "FEN ").map(|v| string(&v)), Some("abc".to_string()));
    assert_eq!(strip_prefix(&chars("FEN "), "FEN ").map(|v| string(&v)), Some(String::new()));
    assert_eq!(strip_prefix(&chars("FEN"), "FEN "), None);
    assert_eq!(strip_prefix(&chars("fen abc"), "FEN "), None);
}

#[test]
fn splitting_at_separators() {
    for s in ["", ",", "a", "a,b", ",a,,b,"] {
        let found: Vec<String> = split(&chars(s), ',').iter().map(string).collect();
        let expected: Vec<String> = s.split(',').map(|t| t.to_string()).collect();
        assert_eq!(found, expected);
    }
}

#[test]
fn splitting_into_lines() {
    for s in ["", "\n", "a", "a\n", "a\nb", "a\r\nb\r", "\r\n\n\nx\n", "a\rb\n\r\n"] {
        let found: Vec<String> = split_lines(&chars(s)).iter().map(string).collect();
        let expected: Vec<String> = s.lines().map(|t| t.to_string()).collect();
        assert_eq!(found, expected);
    }
}

#[test]
fn numbers_in_words() {
    let words = [
        "", "0", "7", "+7", "++7", "+", "-7", "-0", "007", "74543", "1x", " 1", "18446744073709551615",
        "18446744073709551616", "99999999999999999999", "00000000000000000000000001", "1844674407370955161x",
    ];
    for s in words {
        assert_eq!(parse_number(&chars(s)), s.parse::<usize>().ok());
    }
}

#[test]
fn lists_of_numbers() {
    assert_eq!(parse_list(&chars(" [1, 22, 333]")), vec![1, 22, 333]);
    assert_eq!(parse_list(&chars("[]")), Vec::<usize>::new());
    assert_eq!(parse_list(&chars("4,x,5,-6, +7 ,")), vec![4, 5, 7]);
    assert_eq!(parse_list(&chars("[[8]] ")), vec![8]);
}

#[test]
fn turns_of_the_players() {
    assert!(black_to_move(&chars("4k3/8/8/8/8/8/8/4K3 b - - 0 1")));
    assert!(!black_to_move(&chars("4k3/8/8/8/8/8/8/4K3 w - - 0 1")));
    assert!(black_to_move(&chars("  x \t b")));
    assert!(!black_to_move(&chars("b b2")));
    assert!(!black_to_move(&chars("b")));
    assert!(!black_to_move(&chars("")));
}

#[test]
fn corpora_are_read_entry_by_entry() {
    let text = "# comment\nFEN  one w \nPOV 0 count 2 : [1, 2]\nPOV 1 count 1 : [3]\r\n\
                FEN two b\nPOV 0 count 0\nPOV 1 count 1 : [4] : [5]";
    let all = parse_corpus(&chars(text)).unwrap();
    assert_eq!(all.len(), 2);
    assert_eq!(string(&all[0].fen), "one w");
    assert_eq!(all[0].pov0, vec![1, 2]);
    assert_eq!(all[0].pov1, vec![3]);
    assert_eq!(string(&all[1].fen), "two b");
    assert_eq!(all[1].pov0, Vec::<usize>::new());
    assert_eq!(all[1].pov1, Vec::<usize>::new());
    assert_eq!(parse_corpus(&chars("")).unwrap().len(), 0);
}

#[test]
fn corpora_out_of_order_are_refused() {
    assert!(parse_corpus(&chars("POV 1 count 0 : []")).is_none());
    assert!(parse_corpus(&chars("FEN x w\nPOV 1 count 0 : []")).is_none());
    assert!(parse_corpus(&chars("POV 0 count 0 : []\nPOV 1 count 0 : []")).is_none());
    let late = "FEN x w\nPOV 0 count 0 : []\nPOV 1 count 0 : []\nFEN y w\nPOV 1 count 0 : []\nFEN z w";
    assert!(parse_corpus(&chars(late)).is_none());
}

#[test]
fn fens_of_a_corpus() {
    let text = "x\nFEN  one w \nPOV 0 count 0 : []\n FEN no\nFEN two b\r\n";
    let fens: Vec<String> = parse_fens(&chars(text)).iter().map(string).collect();
    assert_eq!(fens, vec!["one w", "two b"]);
}

#[test]
fn members_of_lists() {
    assert!(have_same_members(&vec![1, 2, 2], &vec![2, 1]));
    assert!(have_same_members(&vec![], &vec![]));
    assert!(!have_same_members(&vec![1], &vec![1, 2]));
    assert!(!have_same_members(&vec![1, 2], &vec![1]));
}

#[test]
fn packed_positions_agree_with_their_own_colours() {
    let lookup = Lookup::new();
    let fens = [
        "r3k2r/p1ppqpb1/bn2pnp1/3PN3/1p2P3/2N2Q1p/PPPBBPPP/R3K2R w KQkq - 0 1",
        "r3k2r/p1ppqpb1/bn2pnp1/3PN3/1p2P3/2N2Q1p/PPPBBPPP/R3K2R b KQkq - 0 1",
        "8/2p5/3p4/KP5r/1R3p1k/8/4P1P1/8 b - - 0 1",
    ];
    for fen in fens {
        let board = ChessBoard::from_str(&format!("{fen} | 0 | 0.5")).unwrap();
        let is_black = black_to_move(&chars(fen));
        let own = AresChessBoard { board, stm_is_black: is_black };
        let pov0 = AresThreats::features(&lookup, &own, true);
        let pov1 = AresThreats::features(&lookup, &own, false);
        assert_eq!(compare(&lookup, &board, is_black, &pov0, &pov1), (true, true));
        assert_eq!(compare(&lookup, &board, !is_black, &pov0, &pov1), (false, false));
        assert_eq!(compare(&lookup, &board, is_black, &pov0, &vec![]), if is_black {
            (false, true)
        } else {
            (true, false)
        });
    }
}
